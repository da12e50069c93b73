//! The subset of CBOR (RFC 8949) that the archive and envelope formats use:
//! unsigned integers, byte strings, text strings, arrays and maps, each
//! introduced by a head in its shortest form.
use vstd::prelude::*;
use vstd::utf8::*;

verus! {

broadcast use {encode_utf8_valid_utf8, encode_utf8_decode_utf8};

/// Major type of an unsigned integer.
pub const MAJOR_UINT: u8 = 0;

/// Major type of a byte string.
pub const MAJOR_BYTES: u8 = 2;

/// Major type of a UTF-8 text string.
pub const MAJOR_TEXT: u8 = 3;

/// Major type of an array; the argument counts its items.
pub const MAJOR_ARRAY: u8 = 4;

/// Major type of a map; the argument counts its pairs.
pub const MAJOR_MAP: u8 = 5;

/// `256` raised to the power `k`.
pub open spec fn limit(k: nat) -> nat
    decreases k,
{
    if k == 0 {
        1
    } else {
        256 * limit((k - 1) as nat)
    }
}

/// The `k` lowest bytes of `n`, most significant first.
pub open spec fn be(n: nat, k: nat) -> Seq<u8>
    decreases k,
{
    if k == 0 {
        Seq::empty()
    } else {
        be(n / 256, (k - 1) as nat).push((n % 256) as u8)
    }
}

/// The number that a big-endian byte string denotes.
pub open spec fn be_value(s: Seq<u8>) -> nat
    decreases s.len(),
{
    if s.len() == 0 {
        0
    } else {
        be_value(s.drop_last()) * 256 + s.last() as nat
    }
}

/// The shortest head of an item of major type `major` with argument `n`.
pub open spec fn head(major: u8, n: u64) -> Seq<u8> {
    let tag = major as int * 32;
    if n < 24 {
        seq![(tag + n) as u8]
    } else if n < 0x100 {
        seq![(tag + 24) as u8] + be(n as nat, 1)
    } else if n < 0x10000 {
        seq![(tag + 25) as u8] + be(n as nat, 2)
    } else if n < 0x1_0000_0000 {
        seq![(tag + 26) as u8] + be(n as nat, 4)
    } else {
        seq![(tag + 27) as u8] + be(n as nat, 8)
    }
}

/// A text string item.
pub open spec fn text_item(s: Seq<char>) -> Seq<u8> {
    head(MAJOR_TEXT, encode_utf8(s).len() as u64) + encode_utf8(s)
}

/// A byte string item.
pub open spec fn bytes_item(b: Seq<u8>) -> Seq<u8> {
    head(MAJOR_BYTES, b.len() as u64) + b
}

/// `h` stands in `s` from position `pos` on.
pub open spec fn prefix_at(h: Seq<u8>, s: Seq<u8>, pos: int) -> bool {
    0 <= pos && pos + h.len() <= s.len() && s.subrange(pos, pos + h.len()) == h
}

proof fn lemma_limit_values()
    ensures
        limit(1) == 0x100,
        limit(2) == 0x10000,
        limit(4) == 0x1_0000_0000,
        limit(8) == 0x1_0000_0000_0000_0000,
{
    reveal_with_fuel(limit, 9);
}

proof fn lemma_be(n: nat, k: nat)
    requires
        n < limit(k),
    ensures
        be(n, k).len() == k,
        be_value(be(n, k)) == n,
    decreases k,
{
    if k > 0 {
        let k1 = (k - 1) as nat;
        assert(n / 256 < limit(k1)) by (nonlinear_arith)
            requires
                n < 256 * limit(k1),
        ;
        lemma_be(n / 256, k1);
        let s = be(n, k);
        assert(s.drop_last() == be(n / 256, k1));
        assert((n / 256) * 256 + n % 256 == n) by (nonlinear_arith);
    }
}

proof fn lemma_be_value_bound(s: Seq<u8>)
    ensures
        be_value(s) < limit(s.len()),
    decreases s.len(),
{
    if s.len() > 0 {
        lemma_be_value_bound(s.drop_last());
        let v = be_value(s.drop_last());
        let l = limit(s.drop_last().len());
        assert(v * 256 + (s.last() as nat) < 256 * l) by (nonlinear_arith)
            requires
                v < l,
                s.last() < 256,
        ;
    }
}

/// The length of a head, and what its first byte holds.
proof fn lemma_head_shape(major: u8, n: u64)
    requires
        major < 8,
    ensures
        head(major, n).len() == 1 + width((head(major, n)[0] % 32) as u8),
        head(major, n)[0] / 32 == major,
        head(major, n)[0] % 32 <= 27,
        head(major, n)[0] % 32 < 24 ==> n == head(major, n)[0] % 32,
        head(major, n)[0] % 32 >= 24 ==> minimal((head(major, n)[0] % 32) as u8, n),
        head(major, n)[0] % 32 >= 24 ==> be_value(
            head(major, n).subrange(1, head(major, n).len() as int),
        ) == n,
{
    lemma_limit_values();
    let h = head(major, n);
    if n < 24 {
    } else if n < 0x100 {
        lemma_be(n as nat, 1);
        assert(h.subrange(1, h.len() as int) == be(n as nat, 1));
    } else if n < 0x10000 {
        lemma_be(n as nat, 2);
        assert(h.subrange(1, h.len() as int) == be(n as nat, 2));
    } else if n < 0x1_0000_0000 {
        lemma_be(n as nat, 4);
        assert(h.subrange(1, h.len() as int) == be(n as nat, 4));
    } else {
        lemma_be(n as nat, 8);
        assert(h.subrange(1, h.len() as int) == be(n as nat, 8));
    }
}

/// How many argument bytes follow a first byte whose low five bits are `info`.
pub open spec fn width(info: u8) -> nat {
    if info < 24 {
        0
    } else if info == 24 {
        1
    } else if info == 25 {
        2
    } else if info == 26 {
        4
    } else {
        8
    }
}

/// An argument written with `info` could not have been written shorter.
pub open spec fn minimal(info: u8, n: u64) -> bool {
    &&& info == 24 ==> n >= 24
    &&& info == 25 ==> n >= 0x100
    &&& info == 26 ==> n >= 0x10000
    &&& info == 27 ==> n >= 0x1_0000_0000
}

/// Two heads that stand at one place are the same head.
pub proof fn lemma_head_unique(m1: u8, n1: u64, m2: u8, n2: u64, s: Seq<u8>, pos: int)
    requires
        m1 < 8,
        m2 < 8,
        prefix_at(head(m1, n1), s, pos),
        prefix_at(head(m2, n2), s, pos),
    ensures
        m1 == m2,
        n1 == n2,
{
    lemma_head_shape(m1, n1);
    lemma_head_shape(m2, n2);
    let h1 = head(m1, n1);
    let h2 = head(m2, n2);
    assert(h1[0] == s[pos]);
    assert(h2[0] == s[pos]);
    assert(h1 == h2) by {
        assert(h1 == s.subrange(pos, pos + h1.len()));
        assert(h2 == s.subrange(pos, pos + h2.len()));
    }
}

/// An item made of two parts stands at `pos` exactly when the first stands
/// there and the second right after it.
pub broadcast proof fn lemma_prefix_concat(x: Seq<u8>, y: Seq<u8>, s: Seq<u8>, pos: int)
    ensures
        #[trigger] prefix_at(x + y, s, pos) == (prefix_at(x, s, pos) && prefix_at(
            y,
            s,
            pos + x.len(),
        )),
{
    if prefix_at(x + y, s, pos) {
        lemma_item_body(x, y, s, pos);
    }
    if prefix_at(x, s, pos) && prefix_at(y, s, pos + x.len()) {
        assert(s.subrange(pos, pos + x.len() + y.len()) =~= x + y);
    }
}

/// A byte string stands at its own start.
pub proof fn lemma_whole(s: Seq<u8>)
    ensures
        prefix_at(s, s, 0),
{
    assert(s.subrange(0, s.len() as int) =~= s);
}

/// Two text items that stand at one place hold the same text.
pub proof fn lemma_text_unique(t1: Seq<char>, t2: Seq<char>, s: Seq<u8>, pos: int)
    requires
        s.len() <= u64::MAX,
        prefix_at(text_item(t1), s, pos),
        prefix_at(text_item(t2), s, pos),
    ensures
        t1 == t2,
{
    let e1 = encode_utf8(t1);
    let e2 = encode_utf8(t2);
    lemma_item_body(head(MAJOR_TEXT, e1.len() as u64), e1, s, pos);
    lemma_item_body(head(MAJOR_TEXT, e2.len() as u64), e2, s, pos);
    lemma_head_unique(MAJOR_TEXT, e1.len() as u64, MAJOR_TEXT, e2.len() as u64, s, pos);
    assert(e1 == e2);
    encode_utf8_decode_utf8(t1);
    encode_utf8_decode_utf8(t2);
}

/// Two byte string items that stand at one place hold the same bytes.
pub proof fn lemma_bytes_unique(v1: Seq<u8>, v2: Seq<u8>, s: Seq<u8>, pos: int)
    requires
        s.len() <= u64::MAX,
        prefix_at(bytes_item(v1), s, pos),
        prefix_at(bytes_item(v2), s, pos),
    ensures
        v1 == v2,
{
    lemma_item_body(head(MAJOR_BYTES, v1.len() as u64), v1, s, pos);
    lemma_item_body(head(MAJOR_BYTES, v2.len() as u64), v2, s, pos);
    lemma_head_unique(MAJOR_BYTES, v1.len() as u64, MAJOR_BYTES, v2.len() as u64, s, pos);
}

/// Tells whether `item` stands at `pos`.
pub fn expect(b: &[u8], pos: usize, item: &Vec<u8>) -> (r: bool)
    ensures
        r == prefix_at(item@, b@, pos as int),
{
    if pos > b.len() || item.len() > b.len() - pos {
        return false;
    }
    let blen = b.len();
    let mut i: usize = 0;
    while i < item.len()
        invariant
            blen == b@.len(),
            pos + item@.len() <= b@.len(),
            i <= item@.len(),
            forall|j: int| 0 <= j < i ==> b@[pos + j] == item@[j],
        decreases item@.len() - i,
    {
        if b[pos + i] != item[i] {
            assert(b@.subrange(pos as int, pos + item@.len())[i as int] != item@[i as int]);
            return false;
        }
        i = i + 1;
    }
    assert(b@.subrange(pos as int, pos + item@.len()) =~= item@);
    true
}

/// Appends the big-endian form of the `k` lowest bytes of `n`.
fn push_be(out: &mut Vec<u8>, n: u64, k: usize)
    ensures
        final(out)@ == old(out)@ + be(n as nat, k as nat),
    decreases k,
{
    if k > 0 {
        push_be(out, n / 256, k - 1);
        out.push((n % 256) as u8);
        assert(final(out)@ =~= old(out)@ + be(n as nat, k as nat));
    } else {
        assert(final(out)@ =~= old(out)@ + be(n as nat, k as nat));
    }
}

/// Appends the shortest head for major type `major` and argument `n`.
pub fn push_head(out: &mut Vec<u8>, major: u8, n: u64)
    requires
        major < 8,
    ensures
        final(out)@ == old(out)@ + head(major, n),
{
    let tag: u8 = major * 32;
    if n < 24 {
        out.push(tag + n as u8);
        assert(final(out)@ =~= old(out)@ + head(major, n));
    } else if n < 0x100 {
        out.push(tag + 24);
        push_be(out, n, 1);
        assert(final(out)@ =~= old(out)@ + head(major, n));
    } else if n < 0x10000 {
        out.push(tag + 25);
        push_be(out, n, 2);
        assert(final(out)@ =~= old(out)@ + head(major, n));
    } else if n < 0x1_0000_0000 {
        out.push(tag + 26);
        push_be(out, n, 4);
        assert(final(out)@ =~= old(out)@ + head(major, n));
    } else {
        out.push(tag + 27);
        push_be(out, n, 8);
        assert(final(out)@ =~= old(out)@ + head(major, n));
    }
}

/// Appends every byte of `b`.
pub fn push_all(out: &mut Vec<u8>, b: &[u8])
    ensures
        final(out)@ == old(out)@ + b@,
{
    let ghost start = out@;
    let mut i: usize = 0;
    while i < b.len()
        invariant
            i <= b@.len(),
            out@ == start + b@.subrange(0, i as int),
        decreases b@.len() - i,
    {
        out.push(b[i]);
        i = i + 1;
        assert(out@ =~= start + b@.subrange(0, i as int));
    }
    assert(b@.subrange(0, i as int) =~= b@);
}

/// Appends a byte string item.
pub fn push_bytes(out: &mut Vec<u8>, b: &[u8])
    ensures
        final(out)@ == old(out)@ + bytes_item(b@),
{
    push_head(out, MAJOR_BYTES, b.len() as u64);
    push_all(out, b);
    assert(final(out)@ =~= old(out)@ + bytes_item(b@));
}

/// Appends a text string item.
pub fn push_text(out: &mut Vec<u8>, s: &str)
    ensures
        final(out)@ == old(out)@ + text_item(s@),
{
    let b = s.as_bytes();
    push_head(out, MAJOR_TEXT, b.len() as u64);
    push_all(out, b);
    assert(final(out)@ =~= old(out)@ + text_item(s@));
}

/// Reads the big-endian number in `b[pos..pos + k]`.
fn read_be(b: &[u8], pos: usize, k: usize) -> (v: u64)
    requires
        pos + k <= b@.len(),
        k <= 8,
    ensures
        v == be_value(b@.subrange(pos as int, pos + k)),
{
    let blen = b.len();
    let mut v: u64 = 0;
    let mut i: usize = 0;
    while i < k
        invariant
            blen == b@.len(),
            i <= k <= 8,
            pos + k <= b@.len(),
            v == be_value(b@.subrange(pos as int, pos + i)),
        decreases k - i,
    {
        proof {
            lemma_be_value_bound(b@.subrange(pos as int, pos + i));
            lemma_limit_values();
            assert(limit(i as nat) <= limit(7)) by {
                lemma_limit_monotone(i as nat, 7);
            }
            reveal_with_fuel(limit, 8);
            assert(v * 256 + 255 < 0x1_0000_0000_0000_0000) by (nonlinear_arith)
                requires
                    v < limit(7),
                    limit(7) == 0x100_0000_0000_0000,
            ;
        }
        let idx: usize = pos + i;
        let byte = b[idx];
        v = v * 256 + byte as u64;
        i = i + 1;
        assert(b@.subrange(pos as int, pos + i).drop_last() =~= b@.subrange(
            pos as int,
            pos + i - 1,
        ));
    }
    v
}

proof fn lemma_be_inverse(s: Seq<u8>)
    ensures
        be(be_value(s), s.len()) == s,
    decreases s.len(),
{
    if s.len() > 0 {
        let a = be_value(s.drop_last());
        let l = s.last() as nat;
        lemma_be_inverse(s.drop_last());
        assert((a * 256 + l) / 256 == a && (a * 256 + l) % 256 == l) by (nonlinear_arith)
            requires
                l < 256,
        ;
        assert(be(be_value(s), s.len()) =~= s);
    }
}

/// `body` follows the head `h` that stands at `pos`.
proof fn lemma_item_body(h: Seq<u8>, body: Seq<u8>, s: Seq<u8>, pos: int)
    requires
        prefix_at(h + body, s, pos),
    ensures
        prefix_at(h, s, pos),
        s.subrange(pos + h.len(), pos + h.len() + body.len()) == body,
{
    assert(s.subrange(pos, pos + h.len()) =~= (h + body).subrange(0, h.len() as int));
    assert((h + body).subrange(0, h.len() as int) =~= h);
    assert(s.subrange(pos + h.len(), pos + h.len() + body.len()) =~= (h + body).subrange(
        h.len() as int,
        (h.len() + body.len()) as int,
    ));
}

proof fn lemma_limit_monotone(i: nat, j: nat)
    requires
        i <= j,
    ensures
        limit(i) <= limit(j),
    decreases j,
{
    if i < j {
        lemma_limit_monotone(i, (j - 1) as nat);
    }
}

/// Reads the head that stands at `pos`: its major type, argument and the
/// position after it.
pub fn read_head(b: &[u8], pos: usize) -> (r: Option<(u8, u64, usize)>)
    ensures
        r matches Some((m, n, end)) ==> m < 8 && prefix_at(head(m, n), b@, pos as int) && end
            == pos + head(m, n).len(),
        r is None ==> forall|m: u8, n: u64| m < 8 ==> !prefix_at(head(m, n), b@, pos as int),
{
    if pos >= b.len() {
        return None;
    }
    let first = b[pos];
    let major = first / 32;
    let info = first % 32;
    let k: usize = if info < 24 {
        0
    } else if info == 24 {
        1
    } else if info == 25 {
        2
    } else if info == 26 {
        4
    } else {
        8
    };
    if info > 27 || k > b.len() - pos - 1 {
        proof {
            assert forall|m: u8, n: u64| m < 8 implies !prefix_at(head(m, n), b@, pos as int) by {
                lemma_head_shape(m, n);
                if prefix_at(head(m, n), b@, pos as int) {
                    assert(head(m, n)[0] == b@.subrange(pos as int, pos + head(m, n).len())[0]);
                }
            }
        }
        return None;
    }
    let n: u64 = if k == 0 {
        info as u64
    } else {
        read_be(b, pos + 1, k)
    };
    let ok = if info == 24 {
        n >= 24
    } else if info == 25 {
        n >= 0x100
    } else if info == 26 {
        n >= 0x10000
    } else if info == 27 {
        n >= 0x1_0000_0000
    } else {
        true
    };
    let end = pos + 1 + k;
    let ghost rest = b@.subrange(pos + 1, end as int);
    proof {
        lemma_limit_values();
        lemma_be_value_bound(rest);
    }
    if !ok {
        proof {
            assert forall|m: u8, n2: u64| m < 8 implies !prefix_at(head(m, n2), b@, pos as int) by {
                lemma_head_shape(m, n2);
                let h = head(m, n2);
                if prefix_at(h, b@, pos as int) {
                    assert(h[0] == b@.subrange(pos as int, pos + h.len())[0]);
                    assert(h.subrange(1, h.len() as int) =~= rest);
                }
            }
        }
        return None;
    }
    proof {
        let h = head(major, n);
        lemma_head_shape(major, n);
        if k == 0 {
            assert(h =~= b@.subrange(pos as int, end as int));
        } else {
            lemma_be_inverse(rest);
            assert(rest == be(n as nat, k as nat));
            assert(h =~= b@.subrange(pos as int, end as int));
        }
    }
    Some((major, n, end))
}

/// Relies on `String::from_utf8`: it accepts exactly the well-formed UTF-8
/// byte strings and yields the characters that they encode.
#[verifier::external_body]
fn string_from_utf8(v: Vec<u8>) -> (r: Option<String>)
    ensures
        r is Some <==> valid_utf8(v@),
        r matches Some(s) ==> s@ == decode_utf8(v@),
{
    String::from_utf8(v).ok()
}

/// A text item that stands at `pos` splits into its head and its UTF-8 bytes.
proof fn lemma_text_at(t: Seq<char>, s: Seq<u8>, pos: int)
    requires
        prefix_at(text_item(t), s, pos),
    ensures
        prefix_at(head(MAJOR_TEXT, encode_utf8(t).len() as u64), s, pos),
        s.subrange(
            pos + head(MAJOR_TEXT, encode_utf8(t).len() as u64).len(),
            pos + text_item(t).len(),
        ) == encode_utf8(t),
{
    lemma_item_body(head(MAJOR_TEXT, encode_utf8(t).len() as u64), encode_utf8(t), s, pos);
}

/// A byte string item that stands at `pos` splits into its head and its bytes.
proof fn lemma_bytes_at(v: Seq<u8>, s: Seq<u8>, pos: int)
    requires
        prefix_at(bytes_item(v), s, pos),
    ensures
        prefix_at(head(MAJOR_BYTES, v.len() as u64), s, pos),
{
    lemma_item_body(head(MAJOR_BYTES, v.len() as u64), v, s, pos);
}

/// Reads the byte string item that stands at `pos`.
pub fn read_bytes(b: &[u8], pos: usize) -> (r: Option<(Vec<u8>, usize)>)
    ensures
        r matches Some((v, end)) ==> prefix_at(bytes_item(v@), b@, pos as int) && end == pos
            + bytes_item(v@).len(),
        r is None ==> forall|v: Seq<u8>| !prefix_at(#[trigger] bytes_item(v), b@, pos as int),
{
    match read_head(b, pos) {
        None => {
            proof {
                assert forall|v: Seq<u8>| !prefix_at(#[trigger] bytes_item(v), b@, pos as int) by {
                    if prefix_at(bytes_item(v), b@, pos as int) {
                        lemma_bytes_at(v, b@, pos as int);
                    }
                }
            }
            None
        },
        Some((m, n, end)) => {
            if m != MAJOR_BYTES || n > (b.len() - end) as u64 {
                proof {
                    assert forall|v: Seq<u8>|
                        !prefix_at(#[trigger] bytes_item(v), b@, pos as int) by {
                        if prefix_at(bytes_item(v), b@, pos as int) {
                            lemma_bytes_at(v, b@, pos as int);
                            lemma_head_unique(m, n, MAJOR_BYTES, v.len() as u64, b@, pos as int);
                        }
                    }
                }
                return None;
            }
            let stop = end + n as usize;
            let v = vstd::slice::slice_to_vec(vstd::slice::slice_subrange(b, end, stop));
            proof {
                assert(b@.subrange(pos as int, stop as int) =~= bytes_item(v@));
            }
            Some((v, stop))
        },
    }
}

/// Reads the text string item that stands at `pos`.
pub fn read_text(b: &[u8], pos: usize) -> (r: Option<(String, usize)>)
    ensures
        r matches Some((s, end)) ==> prefix_at(text_item(s@), b@, pos as int) && end == pos
            + text_item(s@).len(),
        r is None ==> forall|t: Seq<char>| !prefix_at(#[trigger] text_item(t), b@, pos as int),
{
    match read_head(b, pos) {
        None => {
            proof {
                assert forall|t: Seq<char>| !prefix_at(#[trigger] text_item(t), b@, pos as int) by {
                    if prefix_at(text_item(t), b@, pos as int) {
                        lemma_text_at(t, b@, pos as int);
                    }
                }
            }
            None
        },
        Some((m, n, end)) => {
            if m != MAJOR_TEXT || n > (b.len() - end) as u64 {
                proof {
                    assert forall|t: Seq<char>|
                        !prefix_at(#[trigger] text_item(t), b@, pos as int) by {
                        if prefix_at(text_item(t), b@, pos as int) {
                            lemma_text_at(t, b@, pos as int);
                            let len = encode_utf8(t).len() as u64;
                            lemma_head_unique(m, n, MAJOR_TEXT, len, b@, pos as int);
                        }
                    }
                }
                return None;
            }
            let stop = end + n as usize;
            let v = vstd::slice::slice_to_vec(vstd::slice::slice_subrange(b, end, stop));
            let ghost raw = v@;
            match string_from_utf8(v) {
                None => {
                    proof {
                        assert forall|t: Seq<char>|
                            !prefix_at(#[trigger] text_item(t), b@, pos as int) by {
                            if prefix_at(text_item(t), b@, pos as int) {
                                lemma_text_at(t, b@, pos as int);
                                let len = encode_utf8(t).len() as u64;
                                lemma_head_unique(m, n, MAJOR_TEXT, len, b@, pos as int);
                                assert(raw =~= encode_utf8(t));
                            }
                        }
                    }
                    None
                },
                Some(s) => {
                    proof {
                        decode_utf8_encode_utf8(raw);
                        assert(b@.subrange(pos as int, stop as int) =~= text_item(s@));
                    }
                    Some((s, stop))
                },
            }
        },
    }
}

} // verus!

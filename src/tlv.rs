//! DER framing: tags, definite lengths, and the elements of a constructed value.
use crate::error::DerError;
use vstd::prelude::*;
use vstd::slice::{slice_subrange, slice_to_vec};

verus! {

/// Largest content length that this library writes or reads, as in `der`'s `Length::MAX`.
pub const MAX_LEN: u64 = 0x0FFF_FFFF;

/// The octets of each vector, in order.
pub open spec fn octets_view(v: Seq<Vec<u8>>) -> Seq<Seq<u8>> {
    v.map_values(|e: Vec<u8>| e@)
}

/// Big-endian unsigned value of a sequence of octets.
pub open spec fn be_value(s: Seq<u8>) -> nat
    decreases s.len(),
{
    if s.len() == 0 {
        0
    } else {
        be_value(s.drop_last()) * 256 + s.last() as nat
    }
}

pub open spec fn pow256(n: nat) -> nat
    decreases n,
{
    if n == 0 {
        1
    } else {
        256 * pow256((n - 1) as nat)
    }
}

/// An identifier octet that DER admits: a tag number of at most 30 (the low-tag-number
/// form), and either one of the assigned universal types or an application,
/// context-specific or private tag.
pub open spec fn tag_ok(t: u8) -> bool {
    &&& t % 32 != 31
    &&& {
        ||| 0x01 <= t <= 0x06
        ||| t == 0x09 || t == 0x0A || t == 0x0C
        ||| 0x12 <= t <= 0x18
        ||| t == 0x1A || t == 0x1E || t == 0x30 || t == 0x31
        ||| 0x40 <= t <= 0x7E
        ||| 0x80 <= t <= 0xBE
        ||| 0xC0 <= t <= 0xFE
    }
}

/// Whether DER admits the identifier octet `t`.
pub fn is_tag_ok(t: u8) -> (r: bool)
    ensures
        r == tag_ok(t),
{
    t % 32 != 31 && ((0x01 <= t && t <= 0x06) || t == 0x09 || t == 0x0A || t == 0x0C || (0x12 <= t
        && t <= 0x18) || t == 0x1A || t == 0x1E || t == 0x30 || t == 0x31 || (0x40 <= t && t
        <= 0x7E) || (0x80 <= t && t <= 0xBE) || (0xC0 <= t && t <= 0xFE))
}

/// Parses the identifier and length octets at the start of `b`:
/// the tag, the number of header octets, and the content length.
/// Only the minimal definite form of DER is accepted, with at most four length octets
/// and a length of at most `MAX_LEN`.
pub open spec fn spec_header(b: Seq<u8>) -> Result<(u8, nat, nat), DerError> {
    if b.len() == 0 {
        Err(DerError::PrematureEof)
    } else if !tag_ok(b[0]) {
        Err(DerError::MalformedTag)
    } else if b.len() < 2 {
        Err(DerError::PrematureEof)
    } else if b[1] < 0x80 {
        Ok((b[0], 2, b[1] as nat))
    } else if b[1] == 0x80 || b[1] > 0x84 {
        Err(DerError::MalformedLength)
    } else {
        let n = (b[1] - 0x80) as int;
        if b.len() < 2 + n {
            Err(DerError::PrematureEof)
        } else {
            let v = be_value(b.subrange(2, 2 + n));
            if b[2] == 0 || v < 0x80 || v > MAX_LEN {
                Err(DerError::MalformedLength)
            } else {
                Ok((b[0], (2 + n) as nat, v))
            }
        }
    }
}

/// The header at the start of `b`, whose content must lie within `b`.
pub open spec fn spec_tlv(b: Seq<u8>) -> Result<(u8, nat, nat), DerError> {
    match spec_header(b) {
        Err(e) => Err(e),
        Ok((t, h, l)) => if h + l <= b.len() {
            Ok((t, h, l))
        } else {
            Err(DerError::MalformedLength)
        },
    }
}

/// `b` is exactly one complete TLV element.
pub open spec fn single_tlv(b: Seq<u8>) -> bool {
    &&& spec_tlv(b) is Ok
    &&& spec_tlv(b)->Ok_0.1 + spec_tlv(b)->Ok_0.2 == b.len()
}

/// Splits `b` into the complete TLV elements it holds, in order.
pub open spec fn spec_elems(b: Seq<u8>) -> Result<Seq<Seq<u8>>, DerError>
    decreases b.len(),
{
    if b.len() == 0 {
        Ok(seq![])
    } else {
        match spec_tlv(b) {
            Err(e) => Err(e),
            Ok((t, h, l)) => if 0 < h + l <= b.len() {
                match spec_elems(b.skip((h + l) as int)) {
                    Err(e) => Err(e),
                    Ok(r) => Ok(seq![b.take((h + l) as int)] + r),
                }
            } else {
                Err(DerError::MalformedLength)
            },
        }
    }
}

/// The length octets of the minimal definite form of `n`.
pub open spec fn enc_len(n: nat) -> Seq<u8> {
    if n < 0x80 {
        seq![n as u8]
    } else if n < 0x100 {
        seq![0x81u8, n as u8]
    } else if n < 0x1_0000 {
        seq![0x82u8, (n / 0x100) as u8, (n % 0x100) as u8]
    } else if n < 0x100_0000 {
        seq![0x83u8, (n / 0x1_0000) as u8, ((n / 0x100) % 0x100) as u8, (n % 0x100) as u8]
    } else {
        seq![
            0x84u8,
            (n / 0x100_0000) as u8,
            ((n / 0x1_0000) % 0x100) as u8,
            ((n / 0x100) % 0x100) as u8,
            (n % 0x100) as u8,
        ]
    }
}

/// The TLV element with tag `t` and content `c`.
pub open spec fn tlv(t: u8, c: Seq<u8>) -> Seq<u8> {
    seq![t] + enc_len(c.len()) + c
}

/// The concatenation of a sequence of encodings.
pub open spec fn concat(s: Seq<Seq<u8>>) -> Seq<u8>
    decreases s.len(),
{
    if s.len() == 0 {
        seq![]
    } else {
        s[0] + concat(s.skip(1))
    }
}

/// Strict lexicographic order on octet strings, a proper prefix coming first.
pub open spec fn lex_lt(a: Seq<u8>, b: Seq<u8>) -> bool
    decreases a.len(),
{
    if b.len() == 0 {
        false
    } else if a.len() == 0 {
        true
    } else if a[0] != b[0] {
        a[0] < b[0]
    } else {
        lex_lt(a.skip(1), b.skip(1))
    }
}

/// Each element is strictly greater than the one before it: the canonical
/// order of a DER SET OF, with no duplicates.
pub open spec fn strictly_ascending(s: Seq<Seq<u8>>) -> bool {
    forall|i: int| 0 < i < s.len() ==> #[trigger] lex_lt(s[i - 1], s[i])
}

/// Reads the header of the element that starts at `pos`, within `b[pos..end]`.
pub fn read_header(b: &[u8], pos: usize, end: usize) -> (r: Result<(u8, usize, usize), DerError>)
    requires
        pos <= end <= b@.len(),
    ensures
        match (r, spec_header(b@.subrange(pos as int, end as int))) {
            (Ok((t, h, l)), Ok((st, sh, sl))) => t == st && h == sh && l == sl && l <= MAX_LEN,
            (Err(e), Err(se)) => e == se,
            _ => false,
        },
{
    let ghost s = b@.subrange(pos as int, end as int);
    if pos == end {
        return Err(DerError::PrematureEof);
    }
    let t = b[pos];
    if !is_tag_ok(t) {
        return Err(DerError::MalformedTag);
    }
    if end - pos < 2 {
        return Err(DerError::PrematureEof);
    }
    let lb = b[pos + 1];
    if lb < 0x80 {
        return Ok((t, 2, lb as usize));
    }
    if lb == 0x80 || lb > 0x84 {
        return Err(DerError::MalformedLength);
    }
    let n = (lb - 0x80) as usize;
    if end - pos < 2 + n {
        return Err(DerError::PrematureEof);
    }
    let mut v: u64 = 0;
    let mut i: usize = 0;
    while i < n
        invariant
            0 <= i <= n <= 4,
            pos + 2 + n <= end <= b@.len(),
            s == b@.subrange(pos as int, end as int),
            v == be_value(s.subrange(2, 2 + i)),
            v < pow256(i as nat),
        decreases n - i,
    {
        proof {
            assert(s.subrange(2, 2 + i + 1).drop_last() =~= s.subrange(2, 2 + i));
            reveal_with_fuel(pow256, 5);
        }
        v = v * 256 + b[pos + 2 + i] as u64;
        i = i + 1;
    }
    proof {
        reveal_with_fuel(pow256, 5);
    }
    if b[pos + 2] == 0 || v < 0x80 || v > MAX_LEN {
        return Err(DerError::MalformedLength);
    }
    Ok((t, 2 + n, v as usize))
}

/// Reads the header of the element at `pos` and checks that its content lies within `end`.
pub fn read_tlv(b: &[u8], pos: usize, end: usize) -> (r: Result<(u8, usize, usize), DerError>)
    requires
        pos <= end <= b@.len(),
    ensures
        match (r, spec_tlv(b@.subrange(pos as int, end as int))) {
            (Ok((t, h, l)), Ok((st, sh, sl))) => t == st && h == sh && l == sl && pos + h + l
                <= end,
            (Err(e), Err(se)) => e == se,
            _ => false,
        },
{
    let (t, h, l) = read_header(b, pos, end)?;
    if l > end - pos || h > end - pos - l {
        return Err(DerError::MalformedLength);
    }
    Ok((t, h, l))
}

/// Copies `b[i..j]` into a new vector.
pub fn copy_range(b: &[u8], i: usize, j: usize) -> (r: Vec<u8>)
    requires
        i <= j <= b@.len(),
    ensures
        r@ == b@.subrange(i as int, j as int),
{
    slice_to_vec(slice_subrange(b, i, j))
}

/// Splits `b[pos..end]` into its complete TLV elements, each copied whole.
pub fn read_elems(b: &[u8], pos: usize, end: usize) -> (r: Result<Vec<Vec<u8>>, DerError>)
    requires
        pos <= end <= b@.len(),
    ensures
        match (r, spec_elems(b@.subrange(pos as int, end as int))) {
            (Ok(v), Ok(sv)) => octets_view(v@) == sv,
            (Err(e), Err(se)) => e == se,
            _ => false,
        },
{
    let mut out: Vec<Vec<u8>> = Vec::new();
    let mut p = pos;
    while p < end
        invariant
            pos <= p <= end <= b@.len(),
            spec_elems(b@.subrange(pos as int, end as int)) == match spec_elems(
                b@.subrange(p as int, end as int),
            ) {
                Ok(rest) => Ok(octets_view(out@) + rest),
                Err(e) => Err(e),
            },
        decreases end - p,
    {
        let ghost s = b@.subrange(p as int, end as int);
        let (t, h, l) = read_tlv(b, p, end)?;
        let q = p + h + l;
        proof {
            assert(s.skip((h + l) as int) =~= b@.subrange(q as int, end as int));
            assert(s.take((h + l) as int) =~= b@.subrange(p as int, q as int));
        }
        let e = copy_range(b, p, q);
        let ghost old_out = octets_view(out@);
        out.push(e);
        proof {
            assert(octets_view(out@) =~= old_out.push(e@));
            match spec_elems(b@.subrange(q as int, end as int)) {
                Ok(rest) => {
                    assert(old_out + (seq![e@] + rest) =~= old_out.push(e@) + rest);
                },
                Err(_) => {},
            }
        }
        p = q;
    }
    proof {
        assert(b@.subrange(end as int, end as int).len() == 0);
        assert(octets_view(out@) + seq![] =~= octets_view(out@));
    }
    Ok(out)
}

/// Compares two octet strings in the strict lexicographic order.
pub fn less_than(a: &[u8], b: &[u8]) -> (r: bool)
    ensures
        r == lex_lt(a@, b@),
{
    let mut i: usize = 0;
    assert(a@.skip(0) =~= a@ && b@.skip(0) =~= b@);
    while i < a.len() && i < b.len() && a[i] == b[i]
        invariant
            i <= a@.len(),
            i <= b@.len(),
            lex_lt(a@, b@) == lex_lt(a@.skip(i as int), b@.skip(i as int)),
        decreases a@.len() - i,
    {
        proof {
            assert(a@.skip(i as int).skip(1) =~= a@.skip(i + 1));
            assert(b@.skip(i as int).skip(1) =~= b@.skip(i + 1));
        }
        i = i + 1;
    }
    if i == b.len() {
        false
    } else if i == a.len() {
        true
    } else {
        a[i] < b[i]
    }
}

/// Appends the octets of `src` to `out`.
pub fn push_all(out: &mut Vec<u8>, src: &[u8])
    ensures
        final(out)@ == old(out)@ + src@,
{
    let mut i: usize = 0;
    while i < src.len()
        invariant
            i <= src@.len(),
            out@ == old(out)@ + src@.take(i as int),
        decreases src@.len() - i,
    {
        proof {
            assert(src@.take(i + 1) =~= src@.take(i as int).push(src@[i as int]));
        }
        out.push(src[i]);
        i = i + 1;
    }
    proof {
        assert(src@.take(i as int) =~= src@);
    }
}

/// Appends the header of an element with tag `t` and content length `n`.
pub fn push_header(out: &mut Vec<u8>, t: u8, n: u64)
    requires
        n <= MAX_LEN,
    ensures
        final(out)@ == old(out)@ + seq![t] + enc_len(n as nat),
{
    out.push(t);
    if n < 0x80 {
        out.push(n as u8);
    } else if n < 0x100 {
        out.push(0x81);
        out.push(n as u8);
    } else if n < 0x1_0000 {
        out.push(0x82);
        out.push((n / 0x100) as u8);
        out.push((n % 0x100) as u8);
    } else if n < 0x100_0000 {
        out.push(0x83);
        out.push((n / 0x1_0000) as u8);
        out.push(((n / 0x100) % 0x100) as u8);
        out.push((n % 0x100) as u8);
    } else {
        out.push(0x84);
        out.push((n / 0x100_0000) as u8);
        out.push(((n / 0x1_0000) % 0x100) as u8);
        out.push(((n / 0x100) % 0x100) as u8);
        out.push((n % 0x100) as u8);
    }
    assert(final(out)@ =~= old(out)@ + seq![t] + enc_len(n as nat));
}

/// The header written by `enc_len` reads back as the same tag and length.
pub proof fn lemma_tlv_parse(t: u8, c: Seq<u8>, rest: Seq<u8>)
    requires
        tag_ok(t),
        c.len() <= MAX_LEN,
    ensures
        ({
            let e = tlv(t, c) + rest;
            let h = (tlv(t, c).len() - c.len()) as nat;
            &&& h >= 2
            &&& spec_tlv(e) == Ok::<(u8, nat, nat), DerError>((t, h, c.len()))
            &&& e.subrange(h as int, (h + c.len()) as int) == c
            &&& e.skip((h + c.len()) as int) == rest
            &&& e[0] == t
        }),
{
    let e = tlv(t, c) + rest;
    let n = c.len();
    let h = (tlv(t, c).len() - c.len()) as nat;
    reveal_with_fuel(be_value, 5);
    assert(e[0] == t);
    if n < 0x80 {
        assert(e[1] == n as u8);
    } else if n < 0x100 {
        assert(e[1] == 0x81u8);
        assert(e.subrange(2, 3) =~= seq![n as u8]);
        assert(seq![n as u8].drop_last() =~= Seq::<u8>::empty());
    } else if n < 0x1_0000 {
        assert(e[1] == 0x82u8);
        let s = seq![(n / 0x100) as u8, (n % 0x100) as u8];
        assert(e.subrange(2, 4) =~= s);
        assert(s.drop_last() =~= seq![(n / 0x100) as u8]);
        assert(s.drop_last().drop_last() =~= Seq::<u8>::empty());
    } else if n < 0x100_0000 {
        assert(e[1] == 0x83u8);
        let s = seq![(n / 0x1_0000) as u8, ((n / 0x100) % 0x100) as u8, (n % 0x100) as u8];
        assert(e.subrange(2, 5) =~= s);
        assert(s.drop_last() =~= seq![(n / 0x1_0000) as u8, ((n / 0x100) % 0x100) as u8]);
        assert(s.drop_last().drop_last() =~= seq![(n / 0x1_0000) as u8]);
        assert(s.drop_last().drop_last().drop_last() =~= Seq::<u8>::empty());
    } else {
        assert(e[1] == 0x84u8);
        let s = seq![
            (n / 0x100_0000) as u8,
            ((n / 0x1_0000) % 0x100) as u8,
            ((n / 0x100) % 0x100) as u8,
            (n % 0x100) as u8,
        ];
        assert(e.subrange(2, 6) =~= s);
        assert(s.drop_last() =~= seq![
            (n / 0x100_0000) as u8,
            ((n / 0x1_0000) % 0x100) as u8,
            ((n / 0x100) % 0x100) as u8,
        ]);
        assert(s.drop_last().drop_last() =~= seq![(n / 0x100_0000) as u8, ((n / 0x1_0000) % 0x100) as u8]);
        assert(s.drop_last().drop_last().drop_last() =~= seq![(n / 0x100_0000) as u8]);
        assert(s.drop_last().drop_last().drop_last().drop_last() =~= Seq::<u8>::empty());
    }
    assert(e.subrange(h as int, (h + n) as int) =~= c);
    assert(e.skip((h + n) as int) =~= rest);
}

/// The header of a complete element does not depend on what follows it.
pub proof fn lemma_tlv_prefix(x: Seq<u8>, rest: Seq<u8>)
    requires
        single_tlv(x),
    ensures
        spec_tlv(x + rest) == spec_tlv(x),
        spec_tlv(x)->Ok_0.1 >= 2,
        (x + rest)[0] == x[0],
        spec_tlv(x)->Ok_0.0 == x[0],
{
    let e = x + rest;
    assert(e[0] == x[0]);
    assert(e[1] == x[1]);
    if x[1] >= 0x80 && x[1] <= 0x84 && x[1] != 0x80 {
        let n = (x[1] - 0x80) as int;
        assert(e.subrange(2, 2 + n) =~= x.subrange(2, 2 + n));
        assert(e[2] == x[2]);
    }
}

/// Complete elements, concatenated, split back into the same elements.
pub proof fn lemma_elems_concat(s: Seq<Seq<u8>>)
    requires
        forall|i: int| 0 <= i < s.len() ==> single_tlv(#[trigger] s[i]),
    ensures
        spec_elems(concat(s)) == Ok::<Seq<Seq<u8>>, DerError>(s),
    decreases s.len(),
{
    if s.len() == 0 {
        assert(concat(s).len() == 0);
        assert(s =~= Seq::<Seq<u8>>::empty());
    } else {
        let b = concat(s);
        let tail = s.skip(1);
        assert forall|i: int| 0 <= i < tail.len() implies single_tlv(#[trigger] tail[i]) by {
            assert(tail[i] == s[i + 1]);
        }
        lemma_elems_concat(tail);
        assert(single_tlv(s[0]));
        lemma_tlv_prefix(s[0], concat(tail));
        let n = s[0].len() as int;
        assert(b.skip(n) =~= concat(tail));
        assert(b.take(n) =~= s[0]);
        assert(seq![s[0]] + tail =~= s);
    }
}

#[verifier::rlimit(40)]
/// A header that parses is the minimal one: writing the element back gives the same octets.
pub proof fn lemma_tlv_canonical(e: Seq<u8>)
    requires
        spec_tlv(e) is Ok,
    ensures
        ({
            let (t, h, l) = spec_tlv(e)->Ok_0;
            &&& l <= MAX_LEN
            &&& h >= 2
            &&& t == e[0]
            &&& tag_ok(t)
            &&& e.take((h + l) as int) == tlv(t, e.subrange(h as int, (h + l) as int))
        }),
{
    let (t, h, l) = spec_tlv(e)->Ok_0;
    let c = e.subrange(h as int, (h + l) as int);
    reveal_with_fuel(be_value, 5);
    if e[1] >= 0x80 {
        let n = (e[1] - 0x80) as int;
        let s = e.subrange(2, 2 + n);
        if n == 1 {
            assert(s.drop_last() =~= Seq::<u8>::empty());
            assert(l == e[2]);
        } else if n == 2 {
            assert(s.drop_last() =~= seq![e[2]]);
            assert(seq![e[2]].drop_last() =~= Seq::<u8>::empty());
            assert(l == e[2] * 256 + e[3]);
        } else if n == 3 {
            assert(s.drop_last() =~= seq![e[2], e[3]]);
            assert(seq![e[2], e[3]].drop_last() =~= seq![e[2]]);
            assert(seq![e[2]].drop_last() =~= Seq::<u8>::empty());
            assert(l == (e[2] * 256 + e[3]) * 256 + e[4]);
        } else {
            assert(s.drop_last() =~= seq![e[2], e[3], e[4]]);
            assert(seq![e[2], e[3], e[4]].drop_last() =~= seq![e[2], e[3]]);
            assert(seq![e[2], e[3]].drop_last() =~= seq![e[2]]);
            assert(seq![e[2]].drop_last() =~= Seq::<u8>::empty());
            assert(l == ((e[2] * 256 + e[3]) * 256 + e[4]) * 256 + e[5]);
        }
    }
    assert(e.take((h + l) as int) =~= tlv(t, c));
}

/// The elements that `spec_elems` splits off are complete and concatenate back to the input.
pub proof fn lemma_elems_canonical(b: Seq<u8>)
    requires
        spec_elems(b) is Ok,
    ensures
        concat(spec_elems(b)->Ok_0) == b,
        forall|i: int| 0 <= i < spec_elems(b)->Ok_0.len() ==> single_tlv(#[trigger] spec_elems(b)->Ok_0[i]),
    decreases b.len(),
{
    let s = spec_elems(b)->Ok_0;
    if b.len() == 0 {
        assert(concat(s) =~= b);
    } else {
        let (t, h, l) = spec_tlv(b)->Ok_0;
        let x = b.take((h + l) as int);
        let rest = b.skip((h + l) as int);
        lemma_elems_canonical(rest);
        let r = spec_elems(rest)->Ok_0;
        assert(s == seq![x] + r);
        assert(s.skip(1) =~= r);
        assert(concat(s) =~= b);
        lemma_tlv_canonical(b);
        lemma_tlv_prefix_take(b, (h + l) as nat);
        assert forall|i: int| 0 <= i < s.len() implies single_tlv(#[trigger] s[i]) by {
            if i > 0 {
                assert(s[i] == r[i - 1]);
            }
        }
    }
}

/// The first element of a parsed buffer, taken alone, is a single complete element.
pub proof fn lemma_tlv_prefix_take(b: Seq<u8>, n: nat)
    requires
        spec_tlv(b) is Ok,
        n == spec_tlv(b)->Ok_0.1 + spec_tlv(b)->Ok_0.2,
    ensures
        single_tlv(b.take(n as int)),
        spec_tlv(b.take(n as int)) == spec_tlv(b),
{
    let x = b.take(n as int);
    assert(x[0] == b[0]);
    assert(x[1] == b[1]);
    if b[1] >= 0x80 && b[1] <= 0x84 && b[1] != 0x80 {
        let k = (b[1] - 0x80) as int;
        assert(x.subrange(2, 2 + k) =~= b.subrange(2, 2 + k));
        assert(x[2] == b[2]);
    }
}

/// The content of a DER INTEGER in its minimal two's-complement form: at least one
/// octet, and no leading octet that only repeats the sign of the next one.
pub open spec fn minimal_integer(s: Seq<u8>) -> bool {
    &&& s.len() >= 1
    &&& !(s.len() >= 2 && s[0] == 0 && s[1] < 0x80)
    &&& !(s.len() >= 2 && s[0] == 0xFF && s[1] >= 0x80)
}

/// The two's-complement value of the content of an INTEGER.
pub open spec fn integer_value(s: Seq<u8>) -> int {
    if s.len() > 0 && s[0] >= 0x80 {
        be_value(s) - pow256(s.len())
    } else {
        be_value(s) as int
    }
}

pub proof fn lemma_pow256_pos(n: nat)
    ensures
        pow256(n) >= 1,
        n >= 1 ==> pow256(n) >= 256,
    decreases n,
{
    if n > 0 {
        lemma_pow256_pos((n - 1) as nat);
    }
}

/// The leading `k` octets bound the big-endian value of the whole.
pub proof fn lemma_be_prefix(s: Seq<u8>, k: nat)
    requires
        k <= s.len(),
    ensures
        be_value(s.take(k as int)) * pow256((s.len() - k) as nat) <= be_value(s),
        be_value(s) < (be_value(s.take(k as int)) + 1) * pow256((s.len() - k) as nat),
    decreases s.len(),
{
    let a = be_value(s.take(k as int));
    if k == s.len() {
        assert(s.take(k as int) =~= s);
        assert(pow256(0) == 1);
        let p0 = pow256(0);
        assert(a * p0 == a) by (nonlinear_arith)
            requires
                p0 == 1,
        ;
    } else {
        let t = s.drop_last();
        assert(t.take(k as int) =~= s.take(k as int));
        lemma_be_prefix(t, k);
        let m = (s.len() - k) as nat;
        let p = pow256((m - 1) as nat);
        assert(pow256(m) == 256 * p);
        let bt = be_value(t);
        let x = s.last() as int;
        assert(be_value(s) == bt * 256 + x);
        assert(a * p <= bt && bt < (a + 1) * p);
        assert(a * pow256(m) == a * (256 * p));
        assert((a + 1) * pow256(m) == (a + 1) * (256 * p));
        assert(a * (256 * p) <= bt * 256 + x && bt * 256 + x < (a + 1) * (256 * p)) by (nonlinear_arith)
            requires
                a * p <= bt,
                bt < (a + 1) * p,
                0 <= x < 256,
        ;
    }
}

pub proof fn lemma_pow256_mono(m: nat, n: nat)
    requires
        m <= n,
    ensures
        pow256(m) <= pow256(n),
    decreases n - m,
{
    if m < n {
        lemma_pow256_mono(m, (n - 1) as nat);
        lemma_pow256_pos((n - 1) as nat);
    }
}

/// A minimal INTEGER of two or more octets is never in 1 to 5; one of at most eight
/// octets lies in the 64-bit range, and one of more lies beyond it on the side of its sign.
pub proof fn lemma_integer_bounds(s: Seq<u8>)
    requires
        minimal_integer(s),
    ensures
        s.len() >= 2 ==> !(1 <= integer_value(s) <= 5),
        s.len() <= 8 ==> i64::MIN <= integer_value(s) <= i64::MAX,
        s.len() > 8 && s[0] >= 0x80 ==> integer_value(s) < i64::MIN,
        s.len() > 8 && s[0] < 0x80 ==> integer_value(s) > i64::MAX,
{
    let n = s.len();
    let v = be_value(s);
    reveal_with_fuel(pow256, 9);
    lemma_be_prefix(s, 1);
    lemma_pow256_pos((n - 1) as nat);
    assert(s.take(1).drop_last() =~= Seq::<u8>::empty());
    assert(be_value(Seq::<u8>::empty()) == 0);
    assert(be_value(s.take(1)) == be_value(s.take(1).drop_last()) * 256 + s.take(1).last());
    assert(be_value(s.take(1)) == s[0]);
    let p1 = pow256((n - 1) as nat);
    assert(pow256(n) == 256 * p1);
    let s0 = s[0] as int;
    assert(s0 * p1 <= v < (s0 + 1) * p1);
    if n <= 8 {
        lemma_pow256_mono((n - 1) as nat, 7);
        assert(pow256(7) == 0x100_0000_0000_0000);
        assert(p1 <= 0x100_0000_0000_0000);
        if s0 >= 0x80 {
            assert(s0 * p1 - 256 * p1 >= -128 * p1) by (nonlinear_arith)
                requires
                    s0 >= 0x80,
                    p1 >= 1,
            ;
            assert((s0 + 1) * p1 <= 256 * p1) by (nonlinear_arith)
                requires
                    s0 < 256,
                    p1 >= 1,
            ;
            assert(integer_value(s) == v - 256 * p1);
        } else {
            assert((s0 + 1) * p1 <= 128 * p1) by (nonlinear_arith)
                requires
                    s0 < 0x80,
                    p1 >= 1,
            ;
        }
    } else {
        lemma_pow256_mono(8, (n - 1) as nat);
        assert(pow256(8) == 0x1_0000_0000_0000_0000);
    }
    if n >= 2 {
        lemma_be_prefix(s, 2);
        lemma_pow256_pos((n - 2) as nat);
        let p2 = pow256((n - 2) as nat);
        assert(p1 == 256 * p2);
        assert(s.take(2).drop_last() =~= s.take(1));
        assert(be_value(s.take(2)) == be_value(s.take(2).drop_last()) * 256 + s.take(2).last());
        let a2 = be_value(s.take(2));
        assert(a2 == s0 * 256 + s[1]);
        assert(a2 * p2 <= v < (a2 + 1) * p2);
        if n > 8 {
            lemma_pow256_mono(7, (n - 2) as nat);
        }
        if s0 >= 0x80 {
            assert((s0 + 1) * p1 <= 256 * p1) by (nonlinear_arith)
                requires
                    s0 < 256,
                    p1 >= 1,
            ;
            if s0 == 0xFF {
                assert(s[1] < 0x80);
                assert((a2 + 1) * p2 <= (0xFF80) * p2) by (nonlinear_arith)
                    requires
                        a2 + 1 <= 0xFF80,
                        p2 >= 1,
                ;
            } else {
                assert((s0 + 1) * p1 <= 255 * p1) by (nonlinear_arith)
                    requires
                        s0 < 255,
                        p1 >= 1,
                ;
            }
        } else if s0 == 0 {
            assert(s[1] >= 0x80);
            assert(a2 * p2 >= 0x80 * p2) by (nonlinear_arith)
                requires
                    a2 >= 0x80,
                    p2 >= 1,
            ;
        } else {
            assert(s0 * p1 >= p1) by (nonlinear_arith)
                requires
                    s0 >= 1,
                    p1 >= 1,
            ;
        }
    }
}

} // verus!

use crate::Errors;
use vstd::prelude::*;
use vstd::slice::{slice_subrange, slice_to_vec};
use vstd::string::StrSliceExecFns;
use vstd::utf8::{
    decode_utf8, encode_utf8, encode_utf8_decode_utf8, encode_utf8_valid_utf8, valid_utf8,
};

verus! {

/// The cache blobs are binary and schema-bound to the in-memory layout: every
/// value is written as itself, length-prefixed where its size varies, with
/// integers in little-endian byte order. Nothing here promises compatibility
/// across versions; the version stamp guards against that.
///
/// A type that can be persisted as one opaque cache blob and read back.
pub trait Cache: View + Sized {
    /// The invariant every decoded database satisfies.
    spec fn cache_wf(&self) -> bool;

    /// The encoding of this database.
    spec fn cache_bytes(&self) -> Seq<u8>;

    /// What a blob decodes to: the model of exactly one well-formed database,
    /// or nothing for a malformed blob.
    spec fn decode_spec(bytes: Seq<u8>) -> Option<Self::V>;

    /// Serializes the database to one cache blob.
    fn to_bytes(&self) -> (r: Vec<u8>)
        ensures
            r@ == self.cache_bytes(),
    ;

    /// Deserializes a cache blob, rejecting anything that is not the encoding
    /// of a well-formed database.
    fn load(content: &[u8]) -> (r: Result<Self, Errors>)
        ensures
            match Self::decode_spec(content@) {
                Some(v) => r matches Ok(db) && db@ == v && db.cache_wf(),
                None => r is Err,
            },
    ;
}

/// Relies on String::from_utf8: it succeeds exactly on valid UTF-8 and
/// decodes it; vstd's `decode_utf8` is the decoding it performs.
#[verifier::external_body]
pub fn string_from_utf8(v: Vec<u8>) -> (r: Option<String>)
    ensures
        r is Some <==> valid_utf8(v@),
        r matches Some(s) ==> s@ == decode_utf8(v@),
{
    String::from_utf8(v).ok()
}

/// A 32-bit integer as four little-endian bytes.
pub open spec fn enc_u32(x: u32) -> Seq<u8> {
    seq![
        (x & 0xff) as u8,
        ((x >> 8) & 0xff) as u8,
        ((x >> 16) & 0xff) as u8,
        ((x >> 24) & 0xff) as u8,
    ]
}

/// The integer the four little-endian bytes stand for.
pub open spec fn combine_u32(b0: u8, b1: u8, b2: u8, b3: u8) -> u32 {
    (b0 as u32) | ((b1 as u32) << 8) | ((b2 as u32) << 16) | ((b3 as u32) << 24)
}

/// A 64-bit integer as eight little-endian bytes.
pub open spec fn enc_u64(x: u64) -> Seq<u8> {
    seq![
        (x & 0xff) as u8,
        ((x >> 8) & 0xff) as u8,
        ((x >> 16) & 0xff) as u8,
        ((x >> 24) & 0xff) as u8,
        ((x >> 32) & 0xff) as u8,
        ((x >> 40) & 0xff) as u8,
        ((x >> 48) & 0xff) as u8,
        ((x >> 56) & 0xff) as u8,
    ]
}

/// The integer the eight little-endian bytes stand for.
pub open spec fn combine_u64(
    b0: u8,
    b1: u8,
    b2: u8,
    b3: u8,
    b4: u8,
    b5: u8,
    b6: u8,
    b7: u8,
) -> u64 {
    (b0 as u64) | ((b1 as u64) << 8) | ((b2 as u64) << 16) | ((b3 as u64) << 24) | ((b4 as u64)
        << 32) | ((b5 as u64) << 40) | ((b6 as u64) << 48) | ((b7 as u64) << 56)
}

/// A boolean as one byte.
pub open spec fn enc_bool(x: bool) -> Seq<u8> {
    seq![if x { 1u8 } else { 0u8 }]
}

/// A string as its UTF-8 bytes, length-prefixed.
pub open spec fn enc_str(s: Seq<char>) -> Seq<u8> {
    enc_u64(encode_utf8(s).len() as u64) + encode_utf8(s)
}

/// An optional string as a presence byte, then the string when present.
pub open spec fn enc_opt_str(s: Option<Seq<char>>) -> Seq<u8> {
    match s {
        Some(x) => enc_bool(true) + enc_str(x),
        None => enc_bool(false),
    }
}

/// Strings, back to back.
pub open spec fn enc_strs(l: Seq<Seq<char>>) -> Seq<u8>
    decreases l.len(),
{
    if l.len() == 0 {
        Seq::empty()
    } else {
        enc_str(l.first()) + enc_strs(l.drop_first())
    }
}

/// A list of strings as a count, then the strings.
pub open spec fn enc_str_list(l: Seq<Seq<char>>) -> Seq<u8> {
    enc_u64(l.len() as u64) + enc_strs(l)
}

/// The string's UTF-8 form is short enough for its length prefix.
pub open spec fn str_bounded(s: Seq<char>) -> bool {
    encode_utf8(s).len() <= u64::MAX
}

/// Every string of the list is bounded, and so is their number.
pub open spec fn strs_bounded(l: Seq<Seq<char>>) -> bool {
    l.len() <= u64::MAX && forall|i: int| 0 <= i < l.len() ==> str_bounded(#[trigger] l[i])
}

/// The optional string is bounded when present.
pub open spec fn opt_str_bounded(s: Option<Seq<char>>) -> bool {
    match s {
        Some(x) => str_bounded(x),
        None => true,
    }
}

/// Reads a 32-bit integer at `pos`, or nothing past the end.
pub open spec fn dec_u32(b: Seq<u8>, pos: int) -> Option<(u32, int)> {
    if 0 <= pos && pos + 4 <= b.len() {
        Some((combine_u32(b[pos], b[pos + 1], b[pos + 2], b[pos + 3]), pos + 4))
    } else {
        None
    }
}

/// Reads a 64-bit integer at `pos`, or nothing past the end.
pub open spec fn dec_u64(b: Seq<u8>, pos: int) -> Option<(u64, int)> {
    if 0 <= pos && pos + 8 <= b.len() {
        Some(
            (
                combine_u64(
                    b[pos],
                    b[pos + 1],
                    b[pos + 2],
                    b[pos + 3],
                    b[pos + 4],
                    b[pos + 5],
                    b[pos + 6],
                    b[pos + 7],
                ),
                pos + 8,
            ),
        )
    } else {
        None
    }
}

/// Reads a boolean byte at `pos`; any byte but zero and one is malformed.
pub open spec fn dec_bool(b: Seq<u8>, pos: int) -> Option<(bool, int)> {
    if 0 <= pos && pos + 1 <= b.len() {
        if b[pos] == 1u8 {
            Some((true, pos + 1))
        } else if b[pos] == 0u8 {
            Some((false, pos + 1))
        } else {
            None
        }
    } else {
        None
    }
}

/// Reads a length-prefixed string at `pos`; the bytes must be valid UTF-8.
pub open spec fn dec_str(b: Seq<u8>, pos: int) -> Option<(Seq<char>, int)> {
    match dec_u64(b, pos) {
        Some((n, p)) => if p + n <= b.len() {
            if valid_utf8(b.subrange(p, p + n)) {
                Some((decode_utf8(b.subrange(p, p + n)), p + n))
            } else {
                None
            }
        } else {
            None
        },
        None => None,
    }
}

/// Reads an optional string at `pos`.
pub open spec fn dec_opt_str(b: Seq<u8>, pos: int) -> Option<(Option<Seq<char>>, int)> {
    match dec_bool(b, pos) {
        Some((present, p)) => if present {
            match dec_str(b, p) {
                Some((s, p2)) => Some((Some(s), p2)),
                None => None,
            }
        } else {
            Some((None, p))
        },
        None => None,
    }
}

/// Reads `count` strings at `pos`, back to back.
pub open spec fn dec_strs(b: Seq<u8>, pos: int, count: int) -> Option<(Seq<Seq<char>>, int)>
    decreases count,
    when count >= 0
{
    if count == 0 {
        Some((Seq::empty(), pos))
    } else {
        match dec_str(b, pos) {
            Some((s, p)) => match dec_strs(b, p, count - 1) {
                Some((rest, p2)) => Some((seq![s] + rest, p2)),
                None => None,
            },
            None => None,
        }
    }
}

/// Reads a count-prefixed list of strings at `pos`.
pub open spec fn dec_str_list(b: Seq<u8>, pos: int) -> Option<(Seq<Seq<char>>, int)> {
    match dec_u64(b, pos) {
        Some((n, p)) => dec_strs(b, p, n as int),
        None => None,
    }
}

/// A stretch of the blob equal to a concatenation splits in two stretches.
pub proof fn lemma_split_concat_at(b: Seq<u8>, pos: int, x: Seq<u8>, y: Seq<u8>)
    requires
        0 <= pos,
        pos + x.len() + y.len() <= b.len(),
        b.subrange(pos, pos + x.len() + y.len()) == x + y,
    ensures
        b.subrange(pos, pos + x.len()) == x,
        b.subrange(pos + x.len(), pos + x.len() + y.len()) == y,
{
    assert forall|k: int| 0 <= k < x.len() implies b.subrange(pos, pos + x.len())[k] == x[k] by {
        assert(b.subrange(pos, pos + x.len())[k] == b[pos + k]);
        assert(b[pos + k] == b.subrange(pos, pos + x.len() + y.len())[k]);
        assert((x + y)[k] == x[k]);
    }
    assert(b.subrange(pos, pos + x.len()) =~= x);
    assert forall|k: int| 0 <= k < y.len() implies b.subrange(
        pos + x.len(),
        pos + x.len() + y.len(),
    )[k] == y[k] by {
        assert(b.subrange(pos + x.len(), pos + x.len() + y.len())[k] == b[pos + x.len() + k]);
        assert(b[pos + x.len() + k] == b.subrange(pos, pos + x.len() + y.len())[x.len() + k]);
        assert((x + y)[x.len() + k] == y[k]);
    }
    assert(b.subrange(pos + x.len(), pos + x.len() + y.len()) =~= y);
}

/// Splitting an integer in bytes and recombining them gives it back.
pub proof fn lemma_dec_u32_at(b: Seq<u8>, pos: int, x: u32)
    requires
        0 <= pos,
        pos + 4 <= b.len(),
        b.subrange(pos, pos + 4) == enc_u32(x),
    ensures
        dec_u32(b, pos) == Some((x, pos + 4)),
{
    assert(b[pos] == enc_u32(x)[0] && b[pos + 1] == enc_u32(x)[1] && b[pos + 2] == enc_u32(x)[2]
        && b[pos + 3] == enc_u32(x)[3]) by {
        assert(b.subrange(pos, pos + 4)[0] == b[pos]);
        assert(b.subrange(pos, pos + 4)[1] == b[pos + 1]);
        assert(b.subrange(pos, pos + 4)[2] == b[pos + 2]);
        assert(b.subrange(pos, pos + 4)[3] == b[pos + 3]);
    }
    assert(combine_u32(
        (x & 0xff) as u8,
        ((x >> 8) & 0xff) as u8,
        ((x >> 16) & 0xff) as u8,
        ((x >> 24) & 0xff) as u8,
    ) == x) by (bit_vector);
}

/// Splitting an integer in bytes and recombining them gives it back.
pub proof fn lemma_dec_u64_at(b: Seq<u8>, pos: int, x: u64)
    requires
        0 <= pos,
        pos + 8 <= b.len(),
        b.subrange(pos, pos + 8) == enc_u64(x),
    ensures
        dec_u64(b, pos) == Some((x, pos + 8)),
{
    assert forall|k: int| 0 <= k < 8 implies b[pos + k] == enc_u64(x)[k] by {
        assert(b.subrange(pos, pos + 8)[k] == b[pos + k]);
    }
    assert(b[pos] == enc_u64(x)[0] && b[pos + 1] == enc_u64(x)[1] && b[pos + 2] == enc_u64(x)[2]
        && b[pos + 3] == enc_u64(x)[3] && b[pos + 4] == enc_u64(x)[4] && b[pos + 5] == enc_u64(
        x,
    )[5] && b[pos + 6] == enc_u64(x)[6] && b[pos + 7] == enc_u64(x)[7]);
    assert(combine_u64(
        (x & 0xff) as u8,
        ((x >> 8) & 0xff) as u8,
        ((x >> 16) & 0xff) as u8,
        ((x >> 24) & 0xff) as u8,
        ((x >> 32) & 0xff) as u8,
        ((x >> 40) & 0xff) as u8,
        ((x >> 48) & 0xff) as u8,
        ((x >> 56) & 0xff) as u8,
    ) == x) by (bit_vector);
}

/// A boolean byte reads back as itself.
pub proof fn lemma_dec_bool_at(b: Seq<u8>, pos: int, x: bool)
    requires
        0 <= pos,
        pos + 1 <= b.len(),
        b.subrange(pos, pos + 1) == enc_bool(x),
    ensures
        dec_bool(b, pos) == Some((x, pos + 1)),
{
    assert(b[pos] == enc_bool(x)[0]) by {
        assert(b.subrange(pos, pos + 1)[0] == b[pos]);
    }
}

/// An encoded string reads back as itself.
pub proof fn lemma_dec_str_at(b: Seq<u8>, pos: int, s: Seq<char>)
    requires
        0 <= pos,
        pos + enc_str(s).len() <= b.len(),
        b.subrange(pos, pos + enc_str(s).len()) == enc_str(s),
        str_bounded(s),
    ensures
        dec_str(b, pos) == Some((s, pos + enc_str(s).len())),
{
    let u = encode_utf8(s);
    let n = u.len() as u64;
    assert(enc_str(s).len() == 8 + u.len());
    assert(b.subrange(pos, pos + 8) =~= enc_u64(n)) by {
        assert forall|k: int| 0 <= k < 8 implies b.subrange(pos, pos + 8)[k] == enc_u64(n)[k] by {
            assert(b.subrange(pos, pos + 8)[k] == b[pos + k]);
            assert(b[pos + k] == b.subrange(pos, pos + enc_str(s).len())[k]);
            assert(enc_str(s)[k] == enc_u64(n)[k]);
        }
    }
    lemma_dec_u64_at(b, pos, n);
    let p = pos + 8;
    assert(b.subrange(p, p + u.len()) =~= u) by {
        assert forall|k: int| 0 <= k < u.len() implies b.subrange(p, p + u.len())[k] == u[k] by {
            assert(b.subrange(p, p + u.len())[k] == b[p + k]);
            assert(b[p + k] == b.subrange(pos, pos + enc_str(s).len())[8 + k]);
            assert(enc_str(s)[8 + k] == u[k]);
        }
    }
    encode_utf8_valid_utf8(s);
    encode_utf8_decode_utf8(s);
}

/// An encoded optional string reads back as itself.
pub proof fn lemma_dec_opt_str_at(b: Seq<u8>, pos: int, s: Option<Seq<char>>)
    requires
        0 <= pos,
        pos + enc_opt_str(s).len() <= b.len(),
        b.subrange(pos, pos + enc_opt_str(s).len()) == enc_opt_str(s),
        opt_str_bounded(s),
    ensures
        dec_opt_str(b, pos) == Some((s, pos + enc_opt_str(s).len())),
{
    match s {
        Some(x) => {
            assert(b.subrange(pos, pos + 1) =~= enc_bool(true)) by {
                assert(b.subrange(pos, pos + 1)[0] == b[pos]);
                assert(b[pos] == b.subrange(pos, pos + enc_opt_str(s).len())[0]);
            }
            lemma_dec_bool_at(b, pos, true);
            assert(b.subrange(pos + 1, pos + 1 + enc_str(x).len()) =~= enc_str(x)) by {
                assert forall|k: int| 0 <= k < enc_str(x).len() implies b.subrange(
                    pos + 1,
                    pos + 1 + enc_str(x).len(),
                )[k] == enc_str(x)[k] by {
                    assert(b.subrange(pos + 1, pos + 1 + enc_str(x).len())[k] == b[pos + 1 + k]);
                    assert(b[pos + 1 + k] == b.subrange(pos, pos + enc_opt_str(s).len())[1 + k]);
                    assert(enc_opt_str(s)[1 + k] == enc_str(x)[k]);
                }
            }
            lemma_dec_str_at(b, pos + 1, x);
        },
        None => {
            assert(b.subrange(pos, pos + 1) =~= enc_bool(false)) by {
                assert(b.subrange(pos, pos + 1)[0] == b[pos]);
                assert(b[pos] == b.subrange(pos, pos + enc_opt_str(s).len())[0]);
            }
            lemma_dec_bool_at(b, pos, false);
        },
    }
}

/// Encoded strings read back as themselves, one after the other.
pub proof fn lemma_dec_strs_at(b: Seq<u8>, pos: int, l: Seq<Seq<char>>)
    requires
        0 <= pos,
        pos + enc_strs(l).len() <= b.len(),
        b.subrange(pos, pos + enc_strs(l).len()) == enc_strs(l),
        forall|i: int| 0 <= i < l.len() ==> str_bounded(#[trigger] l[i]),
    ensures
        dec_strs(b, pos, l.len() as int) == Some((l, pos + enc_strs(l).len())),
    decreases l.len(),
{
    if l.len() == 0 {
        assert(dec_strs(b, pos, 0) == Some((Seq::<Seq<char>>::empty(), pos)));
        assert(l =~= Seq::<Seq<char>>::empty());
    } else {
        let s = l.first();
        let rest = l.drop_first();
        assert(enc_strs(l) == enc_str(s) + enc_strs(rest));
        assert(str_bounded(s)) by {
            assert(l[0] == s);
        }
        assert(b.subrange(pos, pos + enc_str(s).len()) =~= enc_str(s)) by {
            assert forall|k: int| 0 <= k < enc_str(s).len() implies b.subrange(
                pos,
                pos + enc_str(s).len(),
            )[k] == enc_str(s)[k] by {
                assert(b.subrange(pos, pos + enc_str(s).len())[k] == b[pos + k]);
                assert(b[pos + k] == b.subrange(pos, pos + enc_strs(l).len())[k]);
                assert(enc_strs(l)[k] == enc_str(s)[k]);
            }
        }
        lemma_dec_str_at(b, pos, s);
        let p = pos + enc_str(s).len();
        assert(b.subrange(p, p + enc_strs(rest).len()) =~= enc_strs(rest)) by {
            assert forall|k: int| 0 <= k < enc_strs(rest).len() implies b.subrange(
                p,
                p + enc_strs(rest).len(),
            )[k] == enc_strs(rest)[k] by {
                assert(b.subrange(p, p + enc_strs(rest).len())[k] == b[p + k]);
                assert(b[p + k] == b.subrange(pos, pos + enc_strs(l).len())[enc_str(s).len() + k]);
                assert(enc_strs(l)[enc_str(s).len() + k] == enc_strs(rest)[k]);
            }
        }
        assert(forall|i: int| 0 <= i < rest.len() ==> str_bounded(#[trigger] rest[i])) by {
            assert(forall|i: int| 0 <= i < rest.len() ==> rest[i] == l[i + 1]);
        }
        lemma_dec_strs_at(b, p, rest);
        assert(seq![s] + rest =~= l);
    }
}

/// An encoded list of strings reads back as itself.
pub proof fn lemma_dec_str_list_at(b: Seq<u8>, pos: int, l: Seq<Seq<char>>)
    requires
        0 <= pos,
        pos + enc_str_list(l).len() <= b.len(),
        b.subrange(pos, pos + enc_str_list(l).len()) == enc_str_list(l),
        strs_bounded(l),
    ensures
        dec_str_list(b, pos) == Some((l, pos + enc_str_list(l).len())),
{
    let n = l.len() as u64;
    assert(b.subrange(pos, pos + 8) =~= enc_u64(n)) by {
        assert forall|k: int| 0 <= k < 8 implies b.subrange(pos, pos + 8)[k] == enc_u64(n)[k] by {
            assert(b.subrange(pos, pos + 8)[k] == b[pos + k]);
            assert(b[pos + k] == b.subrange(pos, pos + enc_str_list(l).len())[k]);
            assert(enc_str_list(l)[k] == enc_u64(n)[k]);
        }
    }
    lemma_dec_u64_at(b, pos, n);
    let p = pos + 8;
    assert(b.subrange(p, p + enc_strs(l).len()) =~= enc_strs(l)) by {
        assert forall|k: int| 0 <= k < enc_strs(l).len() implies b.subrange(
            p,
            p + enc_strs(l).len(),
        )[k] == enc_strs(l)[k] by {
            assert(b.subrange(p, p + enc_strs(l).len())[k] == b[p + k]);
            assert(b[p + k] == b.subrange(pos, pos + enc_str_list(l).len())[8 + k]);
            assert(enc_str_list(l)[8 + k] == enc_strs(l)[k]);
        }
    }
    lemma_dec_strs_at(b, p, l);
}

/// Appends a 32-bit integer, little endian.
pub fn write_u32(out: &mut Vec<u8>, x: u32)
    ensures
        final(out)@ == old(out)@ + enc_u32(x),
{
    out.push((x & 0xff) as u8);
    out.push(((x >> 8) & 0xff) as u8);
    out.push(((x >> 16) & 0xff) as u8);
    out.push(((x >> 24) & 0xff) as u8);
    assert(out@ =~= old(out)@ + enc_u32(x));
}

/// Appends a 64-bit integer, little endian.
pub fn write_u64(out: &mut Vec<u8>, x: u64)
    ensures
        final(out)@ == old(out)@ + enc_u64(x),
{
    out.push((x & 0xff) as u8);
    out.push(((x >> 8) & 0xff) as u8);
    out.push(((x >> 16) & 0xff) as u8);
    out.push(((x >> 24) & 0xff) as u8);
    out.push(((x >> 32) & 0xff) as u8);
    out.push(((x >> 40) & 0xff) as u8);
    out.push(((x >> 48) & 0xff) as u8);
    out.push(((x >> 56) & 0xff) as u8);
    assert(out@ =~= old(out)@ + enc_u64(x));
}

/// Appends a boolean byte.
pub fn write_bool(out: &mut Vec<u8>, x: bool)
    ensures
        final(out)@ == old(out)@ + enc_bool(x),
{
    out.push(if x {
        1u8
    } else {
        0u8
    });
    assert(out@ =~= old(out)@ + enc_bool(x));
}

/// Appends a length-prefixed string.
pub fn write_str(out: &mut Vec<u8>, s: &str)
    ensures
        final(out)@ == old(out)@ + enc_str(s@),
{
    let bytes = s.as_bytes_vec();
    write_u64(out, bytes.len() as u64);
    let ghost mid = out@;
    let mut i: usize = 0;
    while i < bytes.len()
        invariant
            bytes@ == encode_utf8(s@),
            out@ == mid + bytes@.take(i as int),
            i <= bytes@.len(),
        decreases bytes@.len() - i,
    {
        out.push(bytes[i]);
        proof {
            assert(out@ =~= mid + bytes@.take(i + 1));
        }
        i += 1;
    }
    proof {
        assert(bytes@.take(bytes@.len() as int) =~= bytes@);
        assert(out@ =~= old(out)@ + enc_str(s@));
    }
}

/// Appends an optional string: a presence byte, then the string when present.
pub fn write_opt_str(out: &mut Vec<u8>, s: &Option<String>)
    ensures
        final(out)@ == old(out)@ + enc_opt_str(s.deep_view()),
{
    match s {
        Some(x) => {
            write_bool(out, true);
            write_str(out, x.as_str());
            assert(out@ =~= old(out)@ + enc_opt_str(s.deep_view()));
        },
        None => {
            write_bool(out, false);
            assert(out@ =~= old(out)@ + enc_opt_str(s.deep_view()));
        },
    }
}

/// Appending one string to a list extends its encoding at the end.
pub proof fn lemma_enc_strs_snoc(l: Seq<Seq<char>>, x: Seq<char>)
    ensures
        enc_strs(l.push(x)) == enc_strs(l) + enc_str(x),
    decreases l.len(),
{
    if l.len() == 0 {
        assert(l.push(x).first() == x);
        assert(l.push(x).drop_first() =~= Seq::<Seq<char>>::empty());
        assert(enc_strs(l.push(x)) == enc_str(x) + enc_strs((l.push(x)).drop_first()));
        assert(enc_strs((l.push(x)).drop_first()) == Seq::<u8>::empty());
        assert(enc_strs(l) == Seq::<u8>::empty());
        assert(enc_str(x) + Seq::<u8>::empty() =~= Seq::<u8>::empty() + enc_str(x));
    } else {
        let f = enc_str(l.first());
        assert((l.push(x)).first() == l.first());
        assert((l.push(x)).drop_first() =~= l.drop_first().push(x));
        lemma_enc_strs_snoc(l.drop_first(), x);
        assert(enc_strs(l.push(x)) == f + enc_strs((l.push(x)).drop_first()));
        assert(enc_strs((l.push(x)).drop_first()) == enc_strs(l.drop_first()) + enc_str(x));
        assert(enc_strs(l) == f + enc_strs(l.drop_first()));
        assert(f + (enc_strs(l.drop_first()) + enc_str(x)) =~= (f + enc_strs(l.drop_first()))
            + enc_str(x));
    }
}

/// Appends a count-prefixed list of strings.
pub fn write_str_list(out: &mut Vec<u8>, l: &Vec<String>)
    ensures
        final(out)@ == old(out)@ + enc_str_list(l.deep_view()),
{
    write_u64(out, l.len() as u64);
    let ghost mid = out@;
    let ghost lv = l.deep_view();
    let mut i: usize = 0;
    proof {
        assert(lv.take(0) =~= Seq::<Seq<char>>::empty());
        assert(mid + enc_strs(lv.take(0)) =~= mid);
    }
    while i < l.len()
        invariant
            lv == l.deep_view(),
            lv.len() == l@.len(),
            out@ == mid + enc_strs(lv.take(i as int)),
            i <= l@.len(),
        decreases l@.len() - i,
    {
        write_str(out, l[i].as_str());
        proof {
            assert(lv.take(i + 1) =~= lv.take(i as int).push(lv[i as int]));
            lemma_enc_strs_snoc(lv.take(i as int), lv[i as int]);
            assert(lv[i as int] == l@[i as int]@);
            assert(out@ =~= mid + enc_strs(lv.take(i + 1)));
        }
        i += 1;
    }
    proof {
        assert(lv.take(lv.len() as int) =~= lv);
        assert(out@ =~= old(out)@ + enc_str_list(lv));
    }
}

/// A pair of strings, one after the other.
pub open spec fn enc_pair(p: (Seq<char>, Seq<char>)) -> Seq<u8> {
    enc_str(p.0) + enc_str(p.1)
}

/// String pairs, back to back.
pub open spec fn enc_pairs(l: Seq<(Seq<char>, Seq<char>)>) -> Seq<u8>
    decreases l.len(),
{
    if l.len() == 0 {
        Seq::empty()
    } else {
        enc_pair(l.first()) + enc_pairs(l.drop_first())
    }
}

/// A list of string pairs as a count, then the pairs.
pub open spec fn enc_pair_list(l: Seq<(Seq<char>, Seq<char>)>) -> Seq<u8> {
    enc_u64(l.len() as u64) + enc_pairs(l)
}

/// Every pair of the list is bounded, and so is their number.
pub open spec fn pairs_bounded(l: Seq<(Seq<char>, Seq<char>)>) -> bool {
    l.len() <= u64::MAX && forall|i: int|
        0 <= i < l.len() ==> str_bounded((#[trigger] l[i]).0) && str_bounded(l[i].1)
}

/// Reads a pair of strings.
pub open spec fn dec_pair(b: Seq<u8>, pos: int) -> Option<((Seq<char>, Seq<char>), int)> {
    match dec_str(b, pos) {
        Some((a, p1)) => match dec_str(b, p1) {
            Some((c, p2)) => Some(((a, c), p2)),
            None => None,
        },
        None => None,
    }
}

/// Reads `count` pairs of strings, back to back.
pub open spec fn dec_pairs(b: Seq<u8>, pos: int, count: int) -> Option<
    (Seq<(Seq<char>, Seq<char>)>, int),
>
    decreases count,
    when count >= 0
{
    if count == 0 {
        Some((Seq::empty(), pos))
    } else {
        match dec_pair(b, pos) {
            Some((p, p1)) => match dec_pairs(b, p1, count - 1) {
                Some((rest, p2)) => Some((seq![p] + rest, p2)),
                None => None,
            },
            None => None,
        }
    }
}

/// Reads a count-prefixed list of string pairs.
pub open spec fn dec_pair_list(b: Seq<u8>, pos: int) -> Option<(Seq<(Seq<char>, Seq<char>)>, int)> {
    match dec_u64(b, pos) {
        Some((n, p)) => dec_pairs(b, p, n as int),
        None => None,
    }
}

/// An encoded pair reads back as itself.
pub proof fn lemma_dec_pair_at(b: Seq<u8>, pos: int, p: (Seq<char>, Seq<char>))
    requires
        0 <= pos,
        pos + enc_pair(p).len() <= b.len(),
        b.subrange(pos, pos + enc_pair(p).len()) == enc_pair(p),
        str_bounded(p.0),
        str_bounded(p.1),
    ensures
        dec_pair(b, pos) == Some((p, pos + enc_pair(p).len())),
{
    lemma_split_concat_at(b, pos, enc_str(p.0), enc_str(p.1));
    lemma_dec_str_at(b, pos, p.0);
    lemma_dec_str_at(b, pos + enc_str(p.0).len(), p.1);
    assert((p.0, p.1) == p);
}

/// Encoded pairs read back as themselves, one after the other.
pub proof fn lemma_dec_pairs_at(b: Seq<u8>, pos: int, l: Seq<(Seq<char>, Seq<char>)>)
    requires
        0 <= pos,
        pos + enc_pairs(l).len() <= b.len(),
        b.subrange(pos, pos + enc_pairs(l).len()) == enc_pairs(l),
        forall|i: int| 0 <= i < l.len() ==> str_bounded((#[trigger] l[i]).0) && str_bounded(l[i].1),
    ensures
        dec_pairs(b, pos, l.len() as int) == Some((l, pos + enc_pairs(l).len())),
    decreases l.len(),
{
    if l.len() == 0 {
        assert(l =~= Seq::<(Seq<char>, Seq<char>)>::empty());
    } else {
        let p = l.first();
        let rest = l.drop_first();
        assert(l[0] == p);
        lemma_split_concat_at(b, pos, enc_pair(p), enc_pairs(rest));
        lemma_dec_pair_at(b, pos, p);
        assert(forall|i: int| 0 <= i < rest.len() ==> rest[i] == l[i + 1]);
        lemma_dec_pairs_at(b, pos + enc_pair(p).len(), rest);
        assert(seq![p] + rest =~= l);
    }
}

/// An encoded list of pairs reads back as itself.
pub proof fn lemma_dec_pair_list_at(b: Seq<u8>, pos: int, l: Seq<(Seq<char>, Seq<char>)>)
    requires
        0 <= pos,
        pos + enc_pair_list(l).len() <= b.len(),
        b.subrange(pos, pos + enc_pair_list(l).len()) == enc_pair_list(l),
        pairs_bounded(l),
    ensures
        dec_pair_list(b, pos) == Some((l, pos + enc_pair_list(l).len())),
{
    lemma_split_concat_at(b, pos, enc_u64(l.len() as u64), enc_pairs(l));
    lemma_dec_u64_at(b, pos, l.len() as u64);
    lemma_dec_pairs_at(b, pos + 8, l);
}

/// Appending one pair extends the encoding at the end.
pub proof fn lemma_enc_pairs_snoc(l: Seq<(Seq<char>, Seq<char>)>, x: (Seq<char>, Seq<char>))
    ensures
        enc_pairs(l.push(x)) == enc_pairs(l) + enc_pair(x),
    decreases l.len(),
{
    if l.len() == 0 {
        assert(l.push(x).first() == x);
        assert(l.push(x).drop_first() =~= Seq::<(Seq<char>, Seq<char>)>::empty());
        assert(enc_pairs(l.push(x)) == enc_pair(x) + enc_pairs((l.push(x)).drop_first()));
        assert(enc_pairs((l.push(x)).drop_first()) == Seq::<u8>::empty());
        assert(enc_pairs(l) == Seq::<u8>::empty());
        assert(enc_pair(x) + Seq::<u8>::empty() =~= Seq::<u8>::empty() + enc_pair(x));
    } else {
        let f = enc_pair(l.first());
        assert((l.push(x)).first() == l.first());
        assert((l.push(x)).drop_first() =~= l.drop_first().push(x));
        lemma_enc_pairs_snoc(l.drop_first(), x);
        assert(enc_pairs(l.push(x)) == f + enc_pairs((l.push(x)).drop_first()));
        assert(enc_pairs(l) == f + enc_pairs(l.drop_first()));
        assert(f + (enc_pairs(l.drop_first()) + enc_pair(x)) =~= (f + enc_pairs(l.drop_first()))
            + enc_pair(x));
    }
}

/// Appends a count-prefixed list of string pairs.
pub fn write_pair_list(out: &mut Vec<u8>, l: &Vec<(String, String)>)
    ensures
        final(out)@ == old(out)@ + enc_pair_list(crate::xml_docsource::pairs_view(l@)),
{
    write_u64(out, l.len() as u64);
    let ghost mid = out@;
    let ghost lv = crate::xml_docsource::pairs_view(l@);
    let mut i: usize = 0;
    proof {
        assert(lv.take(0) =~= Seq::<(Seq<char>, Seq<char>)>::empty());
        assert(mid + enc_pairs(lv.take(0)) =~= mid);
    }
    while i < l.len()
        invariant
            lv == crate::xml_docsource::pairs_view(l@),
            lv.len() == l@.len(),
            out@ == mid + enc_pairs(lv.take(i as int)),
            i <= l@.len(),
        decreases l@.len() - i,
    {
        write_str(out, l[i].0.as_str());
        write_str(out, l[i].1.as_str());
        proof {
            assert(lv.take(i + 1) =~= lv.take(i as int).push(lv[i as int]));
            lemma_enc_pairs_snoc(lv.take(i as int), lv[i as int]);
            assert(lv[i as int] == (l@[i as int].0@, l@[i as int].1@));
            assert(out@ =~= mid + enc_pairs(lv.take(i + 1)));
        }
        i += 1;
    }
    proof {
        assert(lv.take(lv.len() as int) =~= lv);
        assert(out@ =~= old(out)@ + enc_pair_list(lv));
    }
}

/// Reads a count-prefixed list of string pairs.
pub fn read_pair_list(b: &[u8], pos: usize) -> (r: Option<(Vec<(String, String)>, usize)>)
    ensures
        match r {
            Some((l, p)) => dec_pair_list(b@, pos as int) == Some(
                (crate::xml_docsource::pairs_view(l@), p as int),
            ),
            None => dec_pair_list(b@, pos as int) is None,
        },
{
    match read_u64(b, pos) {
        Some((n, p0)) => {
            let mut l: Vec<(String, String)> = Vec::new();
            let mut p = p0;
            let mut k: u64 = 0;
            proof {
                assert(crate::xml_docsource::pairs_view(l@) =~= Seq::<
                    (Seq<char>, Seq<char>),
                >::empty());
            }
            while k < n
                invariant
                    k <= n,
                    dec_u64(b@, pos as int) == Some((n, p0 as int)),
                    crate::xml_docsource::pairs_view(l@).len() == l@.len(),
                    match dec_pairs(b@, p as int, (n - k) as int) {
                        Some((rest, pend)) => dec_pairs(b@, p0 as int, n as int) == Some(
                            (crate::xml_docsource::pairs_view(l@) + rest, pend),
                        ),
                        None => dec_pairs(b@, p0 as int, n as int) is None,
                    },
                decreases n - k,
            {
                let (a, p1) = match read_str(b, p) {
                    Some(x) => x,
                    None => {
                        proof {
                            assert(dec_pair(b@, p as int) is None);
                            assert(dec_pairs(b@, p as int, (n - k) as int) is None);
                        }
                        return None;
                    },
                };
                let (c, p2) = match read_str(b, p1) {
                    Some(x) => x,
                    None => {
                        proof {
                            assert(dec_pair(b@, p as int) is None);
                            assert(dec_pairs(b@, p as int, (n - k) as int) is None);
                        }
                        return None;
                    },
                };
                proof {
                    assert(dec_pair(b@, p as int) == Some(((a@, c@), p2 as int)));
                    lemma_dec_pairs_step(b@, p as int, (n - k) as int, (a@, c@), p2 as int);
                }
                let ghost pre = crate::xml_docsource::pairs_view(l@);
                let ghost pv = (a@, c@);
                l.push((a, c));
                proof {
                    assert(crate::xml_docsource::pairs_view(l@) =~= pre.push(pv));
                    match dec_pairs(b@, p2 as int, (n - k - 1) as int) {
                        Some((rest, pend)) => {
                            assert(pre.push(pv) + rest =~= pre + (seq![pv] + rest));
                        },
                        None => {},
                    }
                }
                p = p2;
                k += 1;
            }
            proof {
                assert(dec_pairs(b@, p as int, 0) == Some((Seq::<(Seq<char>, Seq<char>)>::empty(), (
                p as int))));
                assert(crate::xml_docsource::pairs_view(l@) + Seq::<(Seq<char>, Seq<char>)>::empty()
                    =~= crate::xml_docsource::pairs_view(l@));
            }
            Some((l, p))
        },
        None => None,
    }
}

/// One decoded pair extends the sequence read so far.
proof fn lemma_dec_pairs_step(b: Seq<u8>, pos: int, count: int, p: (Seq<char>, Seq<char>), p2: int)
    requires
        count > 0,
        dec_pair(b, pos) == Some((p, p2)),
    ensures
        match dec_pairs(b, p2, count - 1) {
            Some((rest, pend)) => dec_pairs(b, pos, count) == Some((seq![p] + rest, pend)),
            None => dec_pairs(b, pos, count) is None,
        },
{
}

/// Reads a 32-bit integer.
pub fn read_u32(b: &[u8], pos: usize) -> (r: Option<(u32, usize)>)
    ensures
        match r {
            Some((x, p)) => dec_u32(b@, pos as int) == Some((x, p as int)),
            None => dec_u32(b@, pos as int) is None,
        },
{
    if pos <= b.len() && b.len() - pos >= 4 {
        let x = (b[pos] as u32) | ((b[pos + 1] as u32) << 8) | ((b[pos + 2] as u32) << 16) | ((
        b[pos + 3] as u32) << 24);
        Some((x, pos + 4))
    } else {
        None
    }
}

/// Reads a 64-bit integer.
pub fn read_u64(b: &[u8], pos: usize) -> (r: Option<(u64, usize)>)
    ensures
        match r {
            Some((x, p)) => dec_u64(b@, pos as int) == Some((x, p as int)),
            None => dec_u64(b@, pos as int) is None,
        },
{
    if pos <= b.len() && b.len() - pos >= 8 {
        let x = (b[pos] as u64) | ((b[pos + 1] as u64) << 8) | ((b[pos + 2] as u64) << 16) | ((
        b[pos + 3] as u64) << 24) | ((b[pos + 4] as u64) << 32) | ((b[pos + 5] as u64) << 40) | ((
        b[pos + 6] as u64) << 48) | ((b[pos + 7] as u64) << 56);
        Some((x, pos + 8))
    } else {
        None
    }
}

/// Reads a boolean byte.
pub fn read_bool(b: &[u8], pos: usize) -> (r: Option<(bool, usize)>)
    ensures
        match r {
            Some((x, p)) => dec_bool(b@, pos as int) == Some((x, p as int)),
            None => dec_bool(b@, pos as int) is None,
        },
{
    if pos < b.len() {
        if b[pos] == 1 {
            Some((true, pos + 1))
        } else if b[pos] == 0 {
            Some((false, pos + 1))
        } else {
            None
        }
    } else {
        None
    }
}

/// Reads a length-prefixed string.
pub fn read_str(b: &[u8], pos: usize) -> (r: Option<(String, usize)>)
    ensures
        match r {
            Some((s, p)) => dec_str(b@, pos as int) == Some((s@, p as int)),
            None => dec_str(b@, pos as int) is None,
        },
{
    match read_u64(b, pos) {
        Some((n, p)) => {
            assert(p <= b@.len());
            if n <= (b.len() - p) as u64 {
                let nn = n as usize;
                let bytes = slice_to_vec(slice_subrange(b, p, p + nn));
                assert(bytes@ == b@.subrange(p as int, p + n));
                match string_from_utf8(bytes) {
                    Some(s) => Some((s, p + nn)),
                    None => None,
                }
            } else {
                None
            }
        },
        None => None,
    }
}

/// Reads an optional string.
pub fn read_opt_str(b: &[u8], pos: usize) -> (r: Option<(Option<String>, usize)>)
    ensures
        match r {
            Some((s, p)) => dec_opt_str(b@, pos as int) == Some((s.deep_view(), p as int)),
            None => dec_opt_str(b@, pos as int) is None,
        },
{
    match read_bool(b, pos) {
        Some((present, p)) => {
            if present {
                match read_str(b, p) {
                    Some((s, p2)) => Some((Some(s), p2)),
                    None => None,
                }
            } else {
                Some((None, p))
            }
        },
        None => None,
    }
}

/// Reads a count-prefixed list of strings.
pub fn read_str_list(b: &[u8], pos: usize) -> (r: Option<(Vec<String>, usize)>)
    ensures
        match r {
            Some((l, p)) => dec_str_list(b@, pos as int) == Some((l.deep_view(), p as int)),
            None => dec_str_list(b@, pos as int) is None,
        },
{
    match read_u64(b, pos) {
        Some((n, p0)) => {
            let mut l: Vec<String> = Vec::new();
            let mut p = p0;
            let mut k: u64 = 0;
            proof {
                assert(l.deep_view() =~= Seq::<Seq<char>>::empty());
            }
            while k < n
                invariant
                    k <= n,
                    p <= b@.len(),
                    dec_u64(b@, pos as int) == Some((n, p0 as int)),
                    match dec_strs(b@, p as int, (n - k) as int) {
                        Some((rest, pend)) => dec_strs(b@, p0 as int, n as int) == Some(
                            (l.deep_view() + rest, pend),
                        ),
                        None => dec_strs(b@, p0 as int, n as int) is None,
                    },
                decreases n - k,
            {
                match read_str(b, p) {
                    Some((s, p2)) => {
                        proof {
                            lemma_dec_strs_step(b@, p as int, (n - k) as int, s@, p2 as int);
                            lemma_dec_str_end(b@, p as int);
                        }
                        let ghost pre = l.deep_view();
                        let ghost sv = s@;
                        l.push(s);
                        proof {
                            assert(l.deep_view() =~= pre.push(sv));
                            match dec_strs(b@, p2 as int, (n - k - 1) as int) {
                                Some((rest, pend)) => {
                                    assert(pre.push(sv) + rest =~= pre + (seq![sv] + rest));
                                },
                                None => {},
                            }
                        }
                        p = p2;
                    },
                    None => {
                        return None;
                    },
                }
                k += 1;
            }
            proof {
                assert(dec_strs(b@, p as int, 0) == Some((Seq::<Seq<char>>::empty(), p as int)));
                assert(l.deep_view() + Seq::<Seq<char>>::empty() =~= l.deep_view());
            }
            Some((l, p))
        },
        None => None,
    }
}

/// One decoded string extends the sequence read so far.
proof fn lemma_dec_strs_step(b: Seq<u8>, pos: int, count: int, s: Seq<char>, p2: int)
    requires
        count > 0,
        dec_str(b, pos) == Some((s, p2)),
    ensures
        match dec_strs(b, p2, count - 1) {
            Some((rest, pend)) => dec_strs(b, pos, count) == Some((seq![s] + rest, pend)),
            None => dec_strs(b, pos, count) is None,
        },
{
}

/// A decoded string never reads past the end.
proof fn lemma_dec_str_end(b: Seq<u8>, pos: int)
    ensures
        dec_str(b, pos) matches Some((s, p2)) ==> p2 <= b.len(),
{
}

} // verus!

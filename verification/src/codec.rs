use vstd::prelude::*;

use crate::NoteError;
use crate::types::{Note, NoteView, Notes};
use vstd::utf8::{char_is_scalar, char_u32_cast, is_scalar};

verus! {

// The notefile byte format, version 1:
//   magic "NTF" plus a format-version byte,
//   the note count as 8 little-endian bytes,
//   then each note in order: id, title, body as strings; edited and created
//   as 8 little-endian bytes of the value offset by 2^63; the tag count as
//   8 little-endian bytes; then each tag as a string.
// A string is its character count as 8 little-endian bytes, then each
// character's Unicode scalar value as 4 little-endian bytes.

/// The four bytes that open every encoded notefile.
pub open spec fn magic() -> Seq<u8> {
    seq![0x4eu8, 0x54u8, 0x46u8, 0x01u8]
}

/// A `u64` as 8 little-endian bytes.
pub open spec fn u64_le(v: u64) -> Seq<u8> {
    seq![
        (v & 0xff) as u8,
        ((v >> 8) & 0xff) as u8,
        ((v >> 16) & 0xff) as u8,
        ((v >> 24) & 0xff) as u8,
        ((v >> 32) & 0xff) as u8,
        ((v >> 40) & 0xff) as u8,
        ((v >> 48) & 0xff) as u8,
        ((v >> 56) & 0xff) as u8,
    ]
}

/// The `u64` read back from 8 little-endian bytes.
pub open spec fn u64_from_le(b: Seq<u8>) -> u64
    recommends
        b.len() == 8,
{
    (b[0] as u64) | (b[1] as u64) << 8 | (b[2] as u64) << 16 | (b[3] as u64) << 24 | (b[4] as u64)
        << 32 | (b[5] as u64) << 40 | (b[6] as u64) << 48 | (b[7] as u64) << 56
}

/// A `u32` as 4 little-endian bytes.
pub open spec fn u32_le(v: u32) -> Seq<u8> {
    seq![(v & 0xff) as u8, ((v >> 8) & 0xff) as u8, ((v >> 16) & 0xff) as u8, ((v >> 24)
        & 0xff) as u8]
}

/// The `u32` read back from 4 little-endian bytes.
pub open spec fn u32_from_le(b: Seq<u8>) -> u32
    recommends
        b.len() == 4,
{
    (b[0] as u32) | (b[1] as u32) << 8 | (b[2] as u32) << 16 | (b[3] as u32) << 24
}

/// A timestamp shifted into unsigned range: the byte format stores
/// `t + 2^63` as a `u64`.
pub open spec fn ts_bits(t: i64) -> u64 {
    (t + 0x8000000000000000) as u64
}

/// The timestamp read back from its shifted bits.
pub open spec fn ts_from_bits(u: u64) -> i64 {
    (u - 0x8000000000000000) as i64
}

/// The bytes of a character sequence: 4 little-endian bytes per character.
pub open spec fn chars_bytes(s: Seq<char>) -> Seq<u8>
    decreases s.len(),
{
    if s.len() == 0 {
        Seq::empty()
    } else {
        u32_le(s[0] as u32) + chars_bytes(s.drop_first())
    }
}

/// The bytes of a string: its length, then its characters.
pub open spec fn str_bytes(s: Seq<char>) -> Seq<u8> {
    u64_le(s.len() as u64) + chars_bytes(s)
}

/// The bytes of a tag list: each tag as a string, in order.
pub open spec fn tags_bytes(tags: Seq<Seq<char>>) -> Seq<u8>
    decreases tags.len(),
{
    if tags.len() == 0 {
        Seq::empty()
    } else {
        str_bytes(tags[0]) + tags_bytes(tags.drop_first())
    }
}

/// The bytes of one note.
pub open spec fn note_bytes(n: NoteView) -> Seq<u8> {
    str_bytes(n.id) + str_bytes(n.title) + str_bytes(n.body) + u64_le(ts_bits(n.edited)) + u64_le(
        ts_bits(n.created),
    ) + u64_le(n.tags.len() as u64) + tags_bytes(n.tags)
}

/// The bytes of a sequence of notes, in order.
pub open spec fn notes_bytes(s: Seq<NoteView>) -> Seq<u8>
    decreases s.len(),
{
    if s.len() == 0 {
        Seq::empty()
    } else {
        note_bytes(s[0]) + notes_bytes(s.drop_first())
    }
}

/// The full encoding of a notefile.
pub open spec fn encode_spec(s: Seq<NoteView>) -> Seq<u8> {
    magic() + u64_le(s.len() as u64) + notes_bytes(s)
}

/// Every length stored in the format fits its 8-byte field. Real values
/// always do: a `Vec` or `String` never holds more than `usize::MAX`
/// elements.
pub open spec fn note_encodable(n: NoteView) -> bool {
    &&& n.id.len() <= u64::MAX
    &&& n.title.len() <= u64::MAX
    &&& n.body.len() <= u64::MAX
    &&& n.tags.len() <= u64::MAX
    &&& forall|i: int| 0 <= i < n.tags.len() ==> (#[trigger] n.tags[i]).len() <= u64::MAX
}

pub open spec fn encodable(s: Seq<NoteView>) -> bool {
    &&& s.len() <= u64::MAX
    &&& forall|i: int| 0 <= i < s.len() ==> note_encodable(#[trigger] s[i])
}

// ---------------------------------------------------------------------
// The parser, as spec functions. Each returns what it read and how many
// bytes it consumed; `None` is a malformed prefix.
// ---------------------------------------------------------------------

/// Read a `u64` from the front of `b`.
pub open spec fn parse_u64(b: Seq<u8>) -> Option<u64> {
    if b.len() < 8 {
        None
    } else {
        Some(u64_from_le(b.take(8)))
    }
}

/// Read `n` characters from the front of `b`.
pub open spec fn parse_chars(b: Seq<u8>, n: nat) -> Option<Seq<char>>
    decreases n,
{
    if n == 0 {
        Some(Seq::empty())
    } else if b.len() < 4 {
        None
    } else {
        let v = u32_from_le(b.take(4));
        if !is_scalar(v) {
            None
        } else {
            match parse_chars(b.skip(4), (n - 1) as nat) {
                None => None,
                Some(cs) => Some(seq![v as char] + cs),
            }
        }
    }
}

/// Read a length-prefixed string from the front of `b`.
pub open spec fn parse_str(b: Seq<u8>) -> Option<(Seq<char>, int)> {
    match parse_u64(b) {
        None => None,
        Some(n) => match parse_chars(b.skip(8), n as nat) {
            None => None,
            Some(cs) => Some((cs, 8 + 4 * (n as int))),
        },
    }
}

/// Read `n` length-prefixed strings from the front of `b`.
pub open spec fn parse_tags(b: Seq<u8>, n: nat) -> Option<(Seq<Seq<char>>, int)>
    decreases n,
{
    if n == 0 {
        Some((Seq::empty(), 0))
    } else {
        match parse_str(b) {
            None => None,
            Some((s, used)) => match parse_tags(b.skip(used), (n - 1) as nat) {
                None => None,
                Some((ts, used2)) => Some((seq![s] + ts, used + used2)),
            },
        }
    }
}

/// Read one note from the front of `b`.
pub open spec fn parse_note(b: Seq<u8>) -> Option<(NoteView, int)> {
    match parse_str(b) {
        None => None,
        Some((id, u1)) => match parse_str(b.skip(u1)) {
            None => None,
            Some((title, u2)) => match parse_str(b.skip(u1 + u2)) {
                None => None,
                Some((body, u3)) => {
                    let p = u1 + u2 + u3;
                    match parse_u64(b.skip(p)) {
                        None => None,
                        Some(e) => match parse_u64(b.skip(p + 8)) {
                            None => None,
                            Some(c) => match parse_u64(b.skip(p + 16)) {
                                None => None,
                                Some(tn) => match parse_tags(b.skip(p + 24), tn as nat) {
                                    None => None,
                                    Some((tags, u4)) => Some(
                                        (
                                            NoteView {
                                                id: id,
                                                title: title,
                                                body: body,
                                                edited: ts_from_bits(e),
                                                created: ts_from_bits(c),
                                                tags: tags,
                                            },
                                            p + 24 + u4,
                                        ),
                                    ),
                                },
                            },
                        },
                    }
                },
            },
        },
    }
}

/// Read `n` notes from the front of `b`.
pub open spec fn parse_notes(b: Seq<u8>, n: nat) -> Option<(Seq<NoteView>, int)>
    decreases n,
{
    if n == 0 {
        Some((Seq::empty(), 0))
    } else {
        match parse_note(b) {
            None => None,
            Some((nv, used)) => match parse_notes(b.skip(used), (n - 1) as nat) {
                None => None,
                Some((rest, used2)) => Some((seq![nv] + rest, used + used2)),
            },
        }
    }
}

/// What a byte sequence decodes to: the notefile it is the exact encoding
/// of, or nothing if it is malformed, truncated, or has bytes left over.
pub open spec fn decode_spec(b: Seq<u8>) -> Option<Seq<NoteView>> {
    if b.len() < 12 || b.take(4) != magic() {
        None
    } else {
        let n = u64_from_le(b.subrange(4, 12));
        match parse_notes(b.skip(12), n as nat) {
            None => None,
            Some((s, used)) => if 12 + used == b.len() {
                Some(s)
            } else {
                None
            },
        }
    }
}

// ---------------------------------------------------------------------
// Round trip: parsing what was encoded gives the notes back.
// ---------------------------------------------------------------------

proof fn lemma_u64_le_inverse(v: u64)
    ensures
        u64_from_le(u64_le(v)) == v,
{
    assert(((v & 0xff) as u8 as u64) | (((v >> 8) & 0xff) as u8 as u64) << 8 | (((v >> 16)
        & 0xff) as u8 as u64) << 16 | (((v >> 24) & 0xff) as u8 as u64) << 24 | (((v >> 32)
        & 0xff) as u8 as u64) << 32 | (((v >> 40) & 0xff) as u8 as u64) << 40 | (((v >> 48)
        & 0xff) as u8 as u64) << 48 | (((v >> 56) & 0xff) as u8 as u64) << 56 == v)
        by (bit_vector);
}

proof fn lemma_u32_le_inverse(v: u32)
    ensures
        u32_from_le(u32_le(v)) == v,
{
    assert(((v & 0xff) as u8 as u32) | (((v >> 8) & 0xff) as u8 as u32) << 8 | (((v >> 16)
        & 0xff) as u8 as u32) << 16 | (((v >> 24) & 0xff) as u8 as u32) << 24 == v)
        by (bit_vector);
}

proof fn lemma_parse_u64_of(v: u64, rest: Seq<u8>)
    ensures
        parse_u64(u64_le(v) + rest) == Some(v),
        (u64_le(v) + rest).skip(8) =~= rest,
{
    assert((u64_le(v) + rest).take(8) =~= u64_le(v));
    lemma_u64_le_inverse(v);
}

proof fn lemma_parse_chars_of(s: Seq<char>, rest: Seq<u8>)
    ensures
        chars_bytes(s).len() == 4 * s.len(),
        parse_chars(chars_bytes(s) + rest, s.len() as nat) == Some(s),
        (chars_bytes(s) + rest).skip(4 * (s.len() as int)) =~= rest,
    decreases s.len(),
{
    if s.len() == 0 {
        assert(chars_bytes(s) + rest =~= rest);
        assert(parse_chars(rest, 0) == Some(Seq::<char>::empty()));
    } else {
        let c = s[0];
        let tail = s.drop_first();
        lemma_parse_chars_of(tail, rest);
        let b = chars_bytes(s) + rest;
        assert(b =~= u32_le(c as u32) + (chars_bytes(tail) + rest));
        assert(b.take(4) =~= u32_le(c as u32));
        char_is_scalar(c);
        lemma_u32_le_inverse(c as u32);
        let v = u32_from_le(b.take(4));
        assert(v == c as u32);
        assert(is_scalar(v));
        assert(b.skip(4) =~= chars_bytes(tail) + rest);
        assert(parse_chars(b.skip(4), tail.len() as nat) == Some(tail));
        char_u32_cast(c, v);
        assert(v as char == c);
        assert(seq![c] + tail =~= s);
    }
}

proof fn lemma_parse_str_of(s: Seq<char>, rest: Seq<u8>)
    requires
        s.len() <= u64::MAX,
    ensures
        str_bytes(s).len() == 8 + 4 * s.len(),
        parse_str(str_bytes(s) + rest) == Some((s, 8 + 4 * (s.len() as int))),
        (str_bytes(s) + rest).skip(8 + 4 * (s.len() as int)) =~= rest,
{
    let b = str_bytes(s) + rest;
    assert(b =~= u64_le(s.len() as u64) + (chars_bytes(s) + rest));
    lemma_parse_u64_of(s.len() as u64, chars_bytes(s) + rest);
    assert(parse_u64(b) == Some(s.len() as u64));
    assert((s.len() as u64) as nat == s.len());
    assert(b.skip(8) =~= chars_bytes(s) + rest);
    lemma_parse_chars_of(s, rest);
    assert(b.skip(8 + 4 * (s.len() as int)) =~= b.skip(8).skip(4 * (s.len() as int)));
}

proof fn lemma_parse_tags_of(tags: Seq<Seq<char>>, rest: Seq<u8>)
    requires
        forall|i: int| 0 <= i < tags.len() ==> (#[trigger] tags[i]).len() <= u64::MAX,
    ensures
        tags_bytes(tags).len() == if tags.len() == 0 {
            0int
        } else {
            (str_bytes(tags[0]) + tags_bytes(tags.drop_first())).len() as int
        },
        parse_tags(tags_bytes(tags) + rest, tags.len() as nat) == Some(
            (tags, tags_bytes(tags).len() as int),
        ),
        (tags_bytes(tags) + rest).skip(tags_bytes(tags).len() as int) =~= rest,
    decreases tags.len(),
{
    if tags.len() == 0 {
        assert(tags_bytes(tags) + rest =~= rest);
    } else {
        let t0 = tags[0];
        let tail = tags.drop_first();
        let b = tags_bytes(tags) + rest;
        assert(b =~= str_bytes(t0) + (tags_bytes(tail) + rest));
        lemma_parse_str_of(t0, tags_bytes(tail) + rest);
        let u1 = 8 + 4 * (t0.len() as int);
        assert(parse_str(b) == Some((t0, u1)));
        assert(b.skip(u1) =~= tags_bytes(tail) + rest);
        lemma_parse_tags_of(tail, rest);
        assert(parse_tags(b.skip(u1), tail.len() as nat) == Some(
            (tail, tags_bytes(tail).len() as int),
        ));
        assert(seq![t0] + tail =~= tags);
        assert(tags_bytes(tags).len() == u1 + tags_bytes(tail).len());
        assert(b.skip(tags_bytes(tags).len() as int) =~= b.skip(u1).skip(
            tags_bytes(tail).len() as int,
        ));
    }
}

proof fn lemma_ts_bits_inverse(t: i64)
    ensures
        ts_from_bits(ts_bits(t)) == t,
{
}

proof fn lemma_parse_three_strs(a: Seq<char>, b2: Seq<char>, c: Seq<char>, rest: Seq<u8>)
    requires
        a.len() <= u64::MAX,
        b2.len() <= u64::MAX,
        c.len() <= u64::MAX,
    ensures
        ({
            let b = str_bytes(a) + str_bytes(b2) + str_bytes(c) + rest;
            let u1 = 8 + 4 * (a.len() as int);
            let u2 = 8 + 4 * (b2.len() as int);
            let u3 = 8 + 4 * (c.len() as int);
            &&& str_bytes(a).len() == u1
            &&& str_bytes(b2).len() == u2
            &&& str_bytes(c).len() == u3
            &&& parse_str(b) == Some((a, u1))
            &&& parse_str(b.skip(u1)) == Some((b2, u2))
            &&& parse_str(b.skip(u1 + u2)) == Some((c, u3))
            &&& b.skip(u1 + u2 + u3) =~= rest
        }),
{
    let b = str_bytes(a) + str_bytes(b2) + str_bytes(c) + rest;
    let u1 = 8 + 4 * (a.len() as int);
    let u2 = 8 + 4 * (b2.len() as int);
    let u3 = 8 + 4 * (c.len() as int);
    assert(b =~= str_bytes(a) + (str_bytes(b2) + (str_bytes(c) + rest)));
    lemma_parse_str_of(a, str_bytes(b2) + (str_bytes(c) + rest));
    assert(b.skip(u1) =~= str_bytes(b2) + (str_bytes(c) + rest));
    lemma_parse_str_of(b2, str_bytes(c) + rest);
    assert(b.skip(u1 + u2) =~= b.skip(u1).skip(u2));
    lemma_parse_str_of(c, rest);
    assert(b.skip(u1 + u2 + u3) =~= b.skip(u1).skip(u2).skip(u3));
}

proof fn lemma_parse_three_u64s(x: u64, y: u64, z: u64, rest: Seq<u8>)
    ensures
        ({
            let b = u64_le(x) + u64_le(y) + u64_le(z) + rest;
            &&& parse_u64(b) == Some(x)
            &&& parse_u64(b.skip(8)) == Some(y)
            &&& parse_u64(b.skip(16)) == Some(z)
            &&& b.skip(24) =~= rest
        }),
{
    let b = u64_le(x) + u64_le(y) + u64_le(z) + rest;
    assert(b =~= u64_le(x) + (u64_le(y) + (u64_le(z) + rest)));
    lemma_parse_u64_of(x, u64_le(y) + (u64_le(z) + rest));
    assert(b.skip(8) =~= u64_le(y) + (u64_le(z) + rest));
    lemma_parse_u64_of(y, u64_le(z) + rest);
    assert(b.skip(16) =~= b.skip(8).skip(8));
    lemma_parse_u64_of(z, rest);
    assert(b.skip(24) =~= b.skip(8).skip(8).skip(8));
}

#[verifier::rlimit(100)]
proof fn lemma_parse_note_of(n: NoteView, rest: Seq<u8>)
    requires
        note_encodable(n),
    ensures
        parse_note(note_bytes(n) + rest) == Some((n, note_bytes(n).len() as int)),
        (note_bytes(n) + rest).skip(note_bytes(n).len() as int) =~= rest,
{
    let b = note_bytes(n) + rest;
    let fixed = u64_le(ts_bits(n.edited)) + u64_le(ts_bits(n.created)) + u64_le(
        n.tags.len() as u64,
    ) + (tags_bytes(n.tags) + rest);
    assert(b =~= str_bytes(n.id) + str_bytes(n.title) + str_bytes(n.body) + fixed);
    lemma_parse_three_strs(n.id, n.title, n.body, fixed);
    let u1 = 8 + 4 * (n.id.len() as int);
    let u2 = 8 + 4 * (n.title.len() as int);
    let u3 = 8 + 4 * (n.body.len() as int);
    let p = u1 + u2 + u3;
    lemma_parse_three_u64s(
        ts_bits(n.edited),
        ts_bits(n.created),
        n.tags.len() as u64,
        tags_bytes(n.tags) + rest,
    );
    assert(b.skip(p).skip(8) =~= b.skip(p + 8));
    assert(b.skip(p).skip(16) =~= b.skip(p + 16));
    assert(b.skip(p).skip(24) =~= b.skip(p + 24));
    assert(b.skip(p + 24) =~= tags_bytes(n.tags) + rest);
    lemma_parse_tags_of(n.tags, rest);
    assert((n.tags.len() as u64) as nat == n.tags.len());
    lemma_ts_bits_inverse(n.edited);
    lemma_ts_bits_inverse(n.created);
    let parsed = parse_note(b)->0;
    assert(parsed.0 =~~= n);
    assert(note_bytes(n).len() == p + 24 + tags_bytes(n.tags).len());
    assert(b.skip(note_bytes(n).len() as int) =~= b.skip(p + 24).skip(
        tags_bytes(n.tags).len() as int,
    ));
}

#[verifier::rlimit(100)]
proof fn lemma_parse_notes_of(s: Seq<NoteView>, rest: Seq<u8>)
    requires
        forall|i: int| 0 <= i < s.len() ==> note_encodable(#[trigger] s[i]),
    ensures
        parse_notes(notes_bytes(s) + rest, s.len() as nat) == Some(
            (s, notes_bytes(s).len() as int),
        ),
        (notes_bytes(s) + rest).skip(notes_bytes(s).len() as int) =~= rest,
    decreases s.len(),
{
    if s.len() == 0 {
        assert(notes_bytes(s) + rest =~= rest);
    } else {
        let n0 = s[0];
        let tail = s.drop_first();
        let b = notes_bytes(s) + rest;
        assert(b =~= note_bytes(n0) + (notes_bytes(tail) + rest));
        lemma_parse_note_of(n0, notes_bytes(tail) + rest);
        let u1 = note_bytes(n0).len() as int;
        assert(parse_note(b) == Some((n0, u1)));
        assert(b.skip(u1) =~= notes_bytes(tail) + rest);
        lemma_parse_notes_of(tail, rest);
        assert(parse_notes(b.skip(u1), tail.len() as nat) == Some(
            (tail, notes_bytes(tail).len() as int),
        ));
        assert(seq![n0] + tail =~= s);
        assert(notes_bytes(s).len() == u1 + notes_bytes(tail).len());
        assert(b.skip(notes_bytes(s).len() as int) =~= b.skip(u1).skip(
            notes_bytes(tail).len() as int,
        ));
    }
}

/// Round trip: decoding an encoded notefile gives back exactly the notes
/// that were encoded, field for field and in order.
pub proof fn lemma_round_trip(s: Seq<NoteView>)
    requires
        encodable(s),
    ensures
        decode_spec(encode_spec(s)) == Some(s),
{
    let b = encode_spec(s);
    assert(b =~= magic() + (u64_le(s.len() as u64) + notes_bytes(s)));
    assert(b.len() >= 12);
    assert(b.take(4) =~= magic());
    assert(b.subrange(4, 12) =~= u64_le(s.len() as u64));
    lemma_u64_le_inverse(s.len() as u64);
    assert(u64_from_le(b.subrange(4, 12)) == s.len() as u64);
    assert((s.len() as u64) as nat == s.len());
    assert(b.skip(12) =~= notes_bytes(s) + Seq::<u8>::empty());
    lemma_parse_notes_of(s, Seq::empty());
    assert(parse_notes(b.skip(12), s.len() as nat) == Some((s, notes_bytes(s).len() as int)));
    assert(12 + notes_bytes(s).len() == b.len());
}

// ---------------------------------------------------------------------
// Executable encoding.
// ---------------------------------------------------------------------

proof fn lemma_chars_bytes_push(s: Seq<char>, c: char)
    ensures
        chars_bytes(s.push(c)) == chars_bytes(s) + u32_le(c as u32),
    decreases s.len(),
{
    if s.len() == 0 {
        assert(s.push(c)[0] == c);
        assert(s.push(c).drop_first() =~= Seq::<char>::empty());
        assert(chars_bytes(s.push(c)) == u32_le(c as u32) + chars_bytes(s.push(c).drop_first()));
        assert(chars_bytes(s.push(c).drop_first()) =~= Seq::<u8>::empty());
        assert(chars_bytes(s.push(c)) =~= chars_bytes(s) + u32_le(c as u32));
    } else {
        assert(s.push(c)[0] == s[0]);
        assert(s.push(c).drop_first() =~= s.drop_first().push(c));
        lemma_chars_bytes_push(s.drop_first(), c);
        assert(chars_bytes(s.push(c)) == u32_le(s[0] as u32) + (chars_bytes(s.drop_first())
            + u32_le(c as u32)));
        assert(chars_bytes(s.push(c)) =~= chars_bytes(s) + u32_le(c as u32));
    }
}

proof fn lemma_tags_bytes_push(tags: Seq<Seq<char>>, t: Seq<char>)
    ensures
        tags_bytes(tags.push(t)) == tags_bytes(tags) + str_bytes(t),
    decreases tags.len(),
{
    if tags.len() == 0 {
        assert(tags.push(t)[0] == t);
        assert(tags.push(t).drop_first() =~= Seq::<Seq<char>>::empty());
        assert(tags_bytes(tags.push(t)) == str_bytes(t) + tags_bytes(tags.push(t).drop_first()));
        assert(tags_bytes(tags.push(t).drop_first()) =~= Seq::<u8>::empty());
        assert(tags_bytes(tags.push(t)) =~= tags_bytes(tags) + str_bytes(t));
    } else {
        assert(tags.push(t)[0] == tags[0]);
        assert(tags.push(t).drop_first() =~= tags.drop_first().push(t));
        lemma_tags_bytes_push(tags.drop_first(), t);
        assert(tags_bytes(tags.push(t)) == str_bytes(tags[0]) + (tags_bytes(tags.drop_first())
            + str_bytes(t)));
        assert(tags_bytes(tags.push(t)) =~= tags_bytes(tags) + str_bytes(t));
    }
}

#[verifier::rlimit(100)]
proof fn lemma_notes_bytes_push(s: Seq<NoteView>, n: NoteView)
    ensures
        notes_bytes(s.push(n)) == notes_bytes(s) + note_bytes(n),
    decreases s.len(),
{
    if s.len() == 0 {
        assert(s.push(n)[0] == n);
        assert(s.push(n).drop_first() =~= Seq::<NoteView>::empty());
        assert(notes_bytes(s.push(n)) == note_bytes(n) + notes_bytes(s.push(n).drop_first()));
        assert(notes_bytes(s.push(n).drop_first()) =~= Seq::<u8>::empty());
        assert(notes_bytes(s.push(n)) =~= notes_bytes(s) + note_bytes(n));
    } else {
        assert(s.push(n)[0] == s[0]);
        assert(s.push(n).drop_first() =~= s.drop_first().push(n));
        lemma_notes_bytes_push(s.drop_first(), n);
        assert(notes_bytes(s.push(n)) == note_bytes(s[0]) + (notes_bytes(s.drop_first())
            + note_bytes(n)));
        assert(notes_bytes(s.push(n)) =~= notes_bytes(s) + note_bytes(n));
    }
}

/// The low byte of a `u64`.
fn low_byte(v: u64) -> (r: u8)
    ensures
        r == (v & 0xff) as u8,
{
    proof {
        assert(v & 0xff < 256) by (bit_vector);
    }
    (v & 0xff) as u8
}

/// The low byte of a `u32`.
fn low_byte32(v: u32) -> (r: u8)
    ensures
        r == (v & 0xff) as u8,
{
    proof {
        assert(v & 0xff < 256) by (bit_vector);
    }
    (v & 0xff) as u8
}

fn push_u64(out: &mut Vec<u8>, v: u64)
    ensures
        final(out)@ == old(out)@ + u64_le(v),
{
    out.push(low_byte(v));
    out.push(low_byte(v >> 8));
    out.push(low_byte(v >> 16));
    out.push(low_byte(v >> 24));
    out.push(low_byte(v >> 32));
    out.push(low_byte(v >> 40));
    out.push(low_byte(v >> 48));
    out.push(low_byte(v >> 56));
    proof {
        assert(out@ =~= old(out)@ + u64_le(v));
    }
}

fn push_u32(out: &mut Vec<u8>, v: u32)
    ensures
        final(out)@ == old(out)@ + u32_le(v),
{
    out.push(low_byte32(v));
    out.push(low_byte32(v >> 8));
    out.push(low_byte32(v >> 16));
    out.push(low_byte32(v >> 24));
    proof {
        assert(out@ =~= old(out)@ + u32_le(v));
    }
}

fn encode_str(out: &mut Vec<u8>, s: &str)
    ensures
        final(out)@ == old(out)@ + str_bytes(s@),
        s@.len() <= u64::MAX,
{
    let n = s.unicode_len();
    push_u64(out, n as u64);
    proof {
        assert(s@.take(0) =~= Seq::<char>::empty());
        assert(out@ =~= old(out)@ + u64_le(n as u64) + chars_bytes(s@.take(0)));
    }
    let mut i: usize = 0;
    while i < n
        invariant
            n == s@.len(),
            i <= n,
            out@ == old(out)@ + u64_le(n as u64) + chars_bytes(s@.take(i as int)),
        decreases n - i,
    {
        let c = s.get_char(i);
        push_u32(out, c as u32);
        proof {
            lemma_chars_bytes_push(s@.take(i as int), s@[i as int]);
            assert(s@.take(i as int).push(s@[i as int]) =~= s@.take(i as int + 1));
            assert(out@ =~= old(out)@ + u64_le(n as u64) + chars_bytes(s@.take(i as int + 1)));
        }
        i = i + 1;
    }
    proof {
        assert(s@.take(n as int) =~= s@);
        assert((n as u64) == (s@.len() as u64));
        assert(out@ =~= old(out)@ + str_bytes(s@));
    }
}

/// A timestamp shifted into the unsigned range the byte format stores.
fn ts_to_bits(t: i64) -> (r: u64)
    ensures
        r == ts_bits(t),
{
    ((t as i128) + 0x8000000000000000i128) as u64
}

/// The timestamp a stored `u64` stands for.
fn ts_of_bits(u: u64) -> (r: i64)
    ensures
        r == ts_from_bits(u),
{
    ((u as i128) - 0x8000000000000000i128) as i64
}

fn encode_note(out: &mut Vec<u8>, n: &Note)
    ensures
        final(out)@ == old(out)@ + note_bytes(n@),
        note_encodable(n@),
{
    encode_str(out, n.id.as_str());
    encode_str(out, n.title.as_str());
    encode_str(out, n.body.as_str());
    push_u64(out, ts_to_bits(n.edited));
    push_u64(out, ts_to_bits(n.created));
    let tn = n.tags.len();
    push_u64(out, tn as u64);
    let ghost head = old(out)@ + str_bytes(n@.id) + str_bytes(n@.title) + str_bytes(n@.body)
        + u64_le(ts_bits(n@.edited)) + u64_le(ts_bits(n@.created)) + u64_le(n@.tags.len() as u64);
    proof {
        assert(n@.tags.take(0) =~= Seq::<Seq<char>>::empty());
        assert(out@ =~= head + tags_bytes(n@.tags.take(0)));
    }
    let mut k: usize = 0;
    while k < tn
        invariant
            tn == n.tags.len(),
            k <= tn,
            head == old(out)@ + str_bytes(n@.id) + str_bytes(n@.title) + str_bytes(n@.body)
                + u64_le(ts_bits(n@.edited)) + u64_le(ts_bits(n@.created)) + u64_le(
                n@.tags.len() as u64,
            ),
            out@ == head + tags_bytes(n@.tags.take(k as int)),
            forall|j: int| 0 <= j < k ==> (#[trigger] n@.tags[j]).len() <= u64::MAX,
        decreases tn - k,
    {
        encode_str(out, n.tags[k].as_str());
        proof {
            assert(n@.tags[k as int] == n.tags@[k as int]@);
            lemma_tags_bytes_push(n@.tags.take(k as int), n@.tags[k as int]);
            assert(n@.tags.take(k as int).push(n@.tags[k as int]) =~= n@.tags.take(k as int + 1));
            assert(out@ =~= head + tags_bytes(n@.tags.take(k as int + 1)));
        }
        k = k + 1;
    }
    proof {
        assert(n@.tags.take(tn as int) =~= n@.tags);
        assert(out@ =~= old(out)@ + note_bytes(n@));
    }
}

/// Encode a notefile to bytes. The encoding is deterministic and
/// `decode` inverts it exactly (`lemma_round_trip`).
pub fn encode(notes: &Notes) -> (r: Vec<u8>)
    ensures
        r@ == encode_spec(notes@),
        encodable(notes@),
{
    let mut out: Vec<u8> = Vec::new();
    out.push(0x4e);
    out.push(0x54);
    out.push(0x46);
    out.push(0x01);
    let count = notes.0.len();
    push_u64(&mut out, count as u64);
    proof {
        assert(notes@.take(0) =~= Seq::<NoteView>::empty());
        assert(out@ =~= magic() + u64_le(count as u64) + notes_bytes(notes@.take(0)));
    }
    let mut i: usize = 0;
    while i < count
        invariant
            count == notes.0.len(),
            i <= count,
            out@ == magic() + u64_le(count as u64) + notes_bytes(notes@.take(i as int)),
            forall|j: int| 0 <= j < i ==> note_encodable(#[trigger] notes@[j]),
        decreases count - i,
    {
        encode_note(&mut out, &notes.0[i]);
        proof {
            assert(notes@[i as int] == notes.0@[i as int]@);
            lemma_notes_bytes_push(notes@.take(i as int), notes@[i as int]);
            assert(notes@.take(i as int).push(notes@[i as int]) =~= notes@.take(i as int + 1));
            assert(out@ =~= magic() + u64_le(count as u64) + notes_bytes(
                notes@.take(i as int + 1),
            ));
        }
        i = i + 1;
    }
    proof {
        assert(notes@.take(count as int) =~= notes@);
        assert((count as u64) == (notes@.len() as u64));
        assert(out@ =~= encode_spec(notes@));
    }
    out
}

// ---------------------------------------------------------------------
// Executable decoding.
// ---------------------------------------------------------------------

/// Relies on char::from_u32: it returns `Some` exactly on Unicode scalar
/// values, and the returned character carries the given value.
#[verifier::external_body]
fn char_from_u32(v: u32) -> (r: Option<char>)
    ensures
        r is Some <==> is_scalar(v),
        r is Some ==> r->0 as u32 == v,
{
    char::from_u32(v)
}

/// Relies on String::push: it appends exactly the given character.
#[verifier::external_body]
fn push_char(s: &mut String, c: char)
    ensures
        final(s)@ == old(s)@.push(c),
{
    s.push(c);
}

fn read_u64_at(b: &Vec<u8>, pos: usize) -> (r: Option<(u64, usize)>)
    requires
        pos <= b@.len(),
    ensures
        r is None <==> parse_u64(b@.skip(pos as int)) is None,
        r is Some ==> parse_u64(b@.skip(pos as int)) == Some((r->0).0) && (r->0).1 == pos + 8
            && pos + 8 <= b@.len(),
{
    if b.len() - pos < 8 {
        return None;
    }
    let v = (b[pos] as u64) | (b[pos + 1] as u64) << 8 | (b[pos + 2] as u64) << 16 | (b[pos
        + 3] as u64) << 24 | (b[pos + 4] as u64) << 32 | (b[pos + 5] as u64) << 40 | (b[pos
        + 6] as u64) << 48 | (b[pos + 7] as u64) << 56;
    proof {
        let t = b@.skip(pos as int).take(8);
        assert(t =~= b@.subrange(pos as int, pos as int + 8));
        assert(v == u64_from_le(t));
    }
    Some((v, pos + 8))
}

fn read_str_at(b: &Vec<u8>, pos: usize) -> (r: Option<(String, usize)>)
    requires
        pos <= b@.len(),
    ensures
        r is None <==> parse_str(b@.skip(pos as int)) is None,
        r is Some ==> parse_str(b@.skip(pos as int)) == Some(
            ((r->0).0@, (r->0).1 - pos as int),
        ) && pos <= (r->0).1 <= b@.len(),
{
    let ghost start = b@.skip(pos as int);
    let (n, p1) = match read_u64_at(b, pos) {
        None => { return None },
        Some(x) => x,
    };
    proof {
        assert(start.skip(8) =~= b@.skip(p1 as int));
    }
    let mut s = String::new();
    proof {
        let x = parse_chars(b@.skip(p1 as int), n as nat);
        if x is Some {
            assert(s@ + x->0 =~= x->0);
        }
    }
    let mut cur = p1;
    let mut j: u64 = 0;
    while j < n
        invariant
            parse_u64(start) == Some(n),
            start == b@.skip(pos as int),
            b@.skip(p1 as int) == start.skip(8),
            pos + 8 == p1 <= b@.len(),
            p1 <= cur <= b@.len(),
            j <= n,
            cur as int == p1 + 4 * (j as int),
            parse_chars(b@.skip(cur as int), (n - j) as nat) is None ==> parse_chars(
                b@.skip(p1 as int),
                n as nat,
            ) is None,
            parse_chars(b@.skip(cur as int), (n - j) as nat) is Some ==> parse_chars(
                b@.skip(p1 as int),
                n as nat,
            ) == Some(s@ + parse_chars(b@.skip(cur as int), (n - j) as nat)->0),
        decreases n - j,
    {
        if b.len() - cur < 4 {
            proof {
                assert(b@.skip(cur as int).len() < 4);
                assert(parse_chars(b@.skip(cur as int), (n - j) as nat) is None);
            }
            return None;
        }
        let v = (b[cur] as u32) | (b[cur + 1] as u32) << 8 | (b[cur + 2] as u32) << 16 | (b[cur
            + 3] as u32) << 24;
        proof {
            let t = b@.skip(cur as int).take(4);
            assert(t =~= b@.subrange(cur as int, cur as int + 4));
            assert(v == u32_from_le(t));
        }
        let c = match char_from_u32(v) {
            None => {
                proof {
                    assert(parse_chars(b@.skip(cur as int), (n - j) as nat) is None);
                }
                return None;
            },
            Some(c) => c,
        };
        let ghost pre = s@;
        push_char(&mut s, c);
        proof {
            char_u32_cast(c, v);
            assert(b@.skip(cur as int).skip(4) =~= b@.skip(cur as int + 4));
            let tail = parse_chars(b@.skip(cur as int + 4), (n - j - 1) as nat);
            if tail is Some {
                assert(parse_chars(b@.skip(cur as int), (n - j) as nat) == Some(
                    seq![c] + tail->0,
                ));
                assert(pre + (seq![c] + tail->0) =~= s@ + tail->0);
            } else {
                assert(parse_chars(b@.skip(cur as int), (n - j) as nat) is None);
            }
        }
        cur = cur + 4;
        j = j + 1;
    }
    proof {
        assert(parse_chars(b@.skip(cur as int), 0) == Some(Seq::<char>::empty()));
        assert(s@ + Seq::<char>::empty() =~= s@);
        assert(parse_str(start) == Some((s@, 8 + 4 * (n as int))));
        assert(cur as int - pos as int == 8 + 4 * (n as int));
    }
    Some((s, cur))
}

fn read_tags_at(b: &Vec<u8>, pos: usize, tn: u64) -> (r: Option<(Vec<String>, usize)>)
    requires
        pos <= b@.len(),
    ensures
        r is None <==> parse_tags(b@.skip(pos as int), tn as nat) is None,
        r is Some ==> parse_tags(b@.skip(pos as int), tn as nat) == Some(
            ((r->0).0.deep_view(), (r->0).1 - pos as int),
        ) && pos <= (r->0).1 <= b@.len(),
{
    let mut tags: Vec<String> = Vec::new();
    proof {
        let x = parse_tags(b@.skip(pos as int), tn as nat);
        if x is Some {
            assert(tags.deep_view() + (x->0).0 =~= (x->0).0);
        }
    }
    let mut cur = pos;
    let mut j: u64 = 0;
    while j < tn
        invariant
            pos <= cur <= b@.len(),
            j <= tn,
            parse_tags(b@.skip(cur as int), (tn - j) as nat) is None ==> parse_tags(
                b@.skip(pos as int),
                tn as nat,
            ) is None,
            parse_tags(b@.skip(cur as int), (tn - j) as nat) is Some ==> parse_tags(
                b@.skip(pos as int),
                tn as nat,
            ) == Some(
                (
                    tags.deep_view() + (parse_tags(b@.skip(cur as int), (tn - j) as nat)->0).0,
                    cur - pos + (parse_tags(b@.skip(cur as int), (tn - j) as nat)->0).1,
                ),
            ),
        decreases tn - j,
    {
        let ghost pre = tags.deep_view();
        let (t, q) = match read_str_at(b, cur) {
            None => {
                proof {
                    assert(parse_tags(b@.skip(cur as int), (tn - j) as nat) is None);
                }
                return None;
            },
            Some(x) => x,
        };
        let ghost tv = t@;
        tags.push(t);
        proof {
            let used = q - cur as int;
            assert(b@.skip(cur as int).skip(used) =~= b@.skip(q as int));
            assert(tags.deep_view() =~= pre.push(tv));
            let tail = parse_tags(b@.skip(q as int), (tn - j - 1) as nat);
            if tail is Some {
                assert(parse_tags(b@.skip(cur as int), (tn - j) as nat) == Some(
                    (seq![tv] + (tail->0).0, used + (tail->0).1),
                ));
                assert(pre + (seq![tv] + (tail->0).0) =~= tags.deep_view() + (tail->0).0);
            } else {
                assert(parse_tags(b@.skip(cur as int), (tn - j) as nat) is None);
            }
        }
        cur = q;
        j = j + 1;
    }
    proof {
        assert(parse_tags(b@.skip(cur as int), 0) == Some((Seq::<Seq<char>>::empty(), 0int)));
        assert(tags.deep_view() + Seq::<Seq<char>>::empty() =~= tags.deep_view());
    }
    Some((tags, cur))
}

#[verifier::rlimit(100)]
fn read_note_at(b: &Vec<u8>, pos: usize) -> (r: Option<(Note, usize)>)
    requires
        pos <= b@.len(),
    ensures
        r is None <==> parse_note(b@.skip(pos as int)) is None,
        r is Some ==> parse_note(b@.skip(pos as int)) == Some(
            ((r->0).0@, (r->0).1 - pos as int),
        ) && pos <= (r->0).1 <= b@.len(),
{
    let ghost start = b@.skip(pos as int);
    let (id, p1) = match read_str_at(b, pos) {
        None => { return None },
        Some(x) => x,
    };
    proof {
        assert(b@.skip(p1 as int) =~= start.skip(p1 - pos as int));
    }
    let (title, p2) = match read_str_at(b, p1) {
        None => { return None },
        Some(x) => x,
    };
    proof {
        assert(b@.skip(p2 as int) =~= start.skip(p2 - pos as int));
    }
    let (body, p3) = match read_str_at(b, p2) {
        None => { return None },
        Some(x) => x,
    };
    proof {
        assert(b@.skip(p3 as int) =~= start.skip(p3 - pos as int));
    }
    let (ebits, p4) = match read_u64_at(b, p3) {
        None => { return None },
        Some(x) => x,
    };
    proof {
        assert(b@.skip(p4 as int) =~= start.skip(p4 - pos as int));
    }
    let (cbits, p5) = match read_u64_at(b, p4) {
        None => { return None },
        Some(x) => x,
    };
    proof {
        assert(b@.skip(p5 as int) =~= start.skip(p5 - pos as int));
    }
    let (tn, p6) = match read_u64_at(b, p5) {
        None => { return None },
        Some(x) => x,
    };
    proof {
        assert(b@.skip(p6 as int) =~= start.skip(p6 - pos as int));
    }
    let (tags, cur) = match read_tags_at(b, p6, tn) {
        None => { return None },
        Some(x) => x,
    };
    let note = Note {
        id: id,
        title: title,
        body: body,
        edited: ts_of_bits(ebits),
        created: ts_of_bits(cbits),
        tags: tags,
    };
    proof {
        let parsed = parse_note(start)->0;
        assert(parsed.0 =~~= note@);
        assert(parsed.1 == cur - pos as int);
    }
    Some((note, cur))
}

/// Decode a notefile from bytes: succeeds exactly on byte sequences that
/// the format accepts whole, and fails with `FormatError` otherwise.
#[verifier::rlimit(100)]
pub fn decode(bytes: &Vec<u8>) -> (r: Result<Notes, NoteError>)
    ensures
        r is Ok <==> decode_spec(bytes@) is Some,
        r is Ok ==> r->Ok_0@ == decode_spec(bytes@)->0,
        r is Err ==> r->Err_0 == NoteError::FormatError,
{
    if bytes.len() < 12 {
        return Err(NoteError::FormatError);
    }
    let m0 = bytes[0];
    let m1 = bytes[1];
    let m2 = bytes[2];
    let m3 = bytes[3];
    if !(m0 == 0x4e && m1 == 0x54 && m2 == 0x46 && m3 == 0x01) {
        proof {
            assert(bytes@.take(4) != magic());
        }
        return Err(NoteError::FormatError);
    }
    proof {
        assert(bytes@.take(4) =~= magic());
    }
    let (count, p0) = match read_u64_at(bytes, 4) {
        None => { return Err(NoteError::FormatError) },
        Some(x) => x,
    };
    proof {
        assert(bytes@.skip(4).take(8) =~= bytes@.subrange(4, 12));
        assert(count == u64_from_le(bytes@.subrange(4, 12)));
    }
    let mut acc: Vec<Note> = Vec::new();
    proof {
        let x = parse_notes(bytes@.skip(12), count as nat);
        if x is Some {
            assert(acc@.map_values(|x2: Note| x2@) + (x->0).0 =~= (x->0).0);
        }
    }
    let mut cur: usize = p0;
    let mut j: u64 = 0;
    while j < count
        invariant
            12 <= cur <= bytes@.len(),
            j <= count,
            bytes@.len() >= 12,
            bytes@.take(4) == magic(),
            count == u64_from_le(bytes@.subrange(4, 12)),
            parse_notes(bytes@.skip(cur as int), (count - j) as nat) is None ==> parse_notes(
                bytes@.skip(12),
                count as nat,
            ) is None,
            parse_notes(bytes@.skip(cur as int), (count - j) as nat) is Some ==> parse_notes(
                bytes@.skip(12),
                count as nat,
            ) == Some(
                (
                    acc@.map_values(|x: Note| x@) + (parse_notes(
                        bytes@.skip(cur as int),
                        (count - j) as nat,
                    )->0).0,
                    cur - 12 + (parse_notes(bytes@.skip(cur as int), (count - j) as nat)->0).1,
                ),
            ),
        decreases count - j,
    {
        let ghost pre = acc@.map_values(|x: Note| x@);
        let (note, q) = match read_note_at(bytes, cur) {
            None => {
                proof {
                    assert(parse_notes(bytes@.skip(cur as int), (count - j) as nat) is None);
                }
                return Err(NoteError::FormatError);
            },
            Some(x) => x,
        };
        let ghost nv = note@;
        acc.push(note);
        proof {
            let used = q - cur as int;
            assert(bytes@.skip(cur as int).skip(used) =~= bytes@.skip(q as int));
            assert(acc@.map_values(|x: Note| x@) =~= pre.push(nv));
            let tail = parse_notes(bytes@.skip(q as int), (count - j - 1) as nat);
            if tail is Some {
                assert(parse_notes(bytes@.skip(cur as int), (count - j) as nat) == Some(
                    (seq![nv] + (tail->0).0, used + (tail->0).1),
                ));
                assert(pre + (seq![nv] + (tail->0).0) =~= acc@.map_values(|x: Note| x@) + (
                tail->0).0);
            } else {
                assert(parse_notes(bytes@.skip(cur as int), (count - j) as nat) is None);
            }
        }
        cur = q;
        j = j + 1;
    }
    proof {
        assert(parse_notes(bytes@.skip(cur as int), 0) == Some((Seq::<NoteView>::empty(), 0int)));
        assert(acc@.map_values(|x: Note| x@) + Seq::<NoteView>::empty() =~= acc@.map_values(
            |x: Note| x@,
        ));
    }
    if cur != bytes.len() {
        return Err(NoteError::FormatError);
    }
    let out = Notes(acc);
    proof {
        assert(out@ == decode_spec(bytes@)->0);
    }
    Ok(out)
}

} // verus!

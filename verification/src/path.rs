//! Normalized, slash-delimited virtual paths.
//!
//! A [`Path`] is an ordered sequence of non-empty segments that contain no
//! `/`. [`Path::parse`] percent-decodes a raw string and rejects malformed
//! encodings; [`Path::from_raw`] takes the segments verbatim without
//! decoding. [`Path::as_str`] renders the canonical slash-joined form,
//! percent-encoding the characters that would not survive a re-parse.
//! Equality is defined over the decoded segment sequence, so `"a/b"` and its
//! percent-encoded spellings compare equal after parsing.

use vstd::prelude::*;
use vstd::string::*;

use crate::error::Error;
use crate::text::{chars_to_string, str_to_chars};

verus! {

/// An ASCII control character: `0x00..=0x1f` or `0x7f`.
pub open spec fn is_control_char(c: char) -> bool {
    (c as u32) < 0x20 || (c as u32) == 0x7f
}

/// A hexadecimal digit, upper or lower case.
pub open spec fn is_hex_digit_char(c: char) -> bool {
    ('0' <= c && c <= '9') || ('A' <= c && c <= 'F') || ('a' <= c && c <= 'f')
}

/// The numeric value of a hexadecimal digit.
pub open spec fn hex_value(c: char) -> int
    recommends
        is_hex_digit_char(c),
{
    if '0' <= c && c <= '9' {
        c as u32 - '0' as u32
    } else if 'A' <= c && c <= 'F' {
        c as u32 - 'A' as u32 + 10
    } else {
        c as u32 - 'a' as u32 + 10
    }
}

/// The upper-case hexadecimal digit for a value below sixteen.
pub open spec fn hex_digit_char(v: int) -> char
    recommends
        0 <= v < 16,
{
    if v < 10 {
        (('0' as u32) + v) as char
    } else {
        (('A' as u32) + (v - 10)) as char
    }
}

/// Characters that the canonical rendering percent-encodes: the escape
/// character itself, the delimiter, and ASCII control characters.
pub open spec fn needs_escape(c: char) -> bool {
    c == '%' || c == '/' || is_control_char(c)
}

/// The three-character escape `%XY` of a character below `0x80`.
pub open spec fn escape_char(c: char) -> Seq<char>
    recommends
        (c as u32) < 0x80,
{
    seq!['%', hex_digit_char((c as int) / 16), hex_digit_char((c as int) % 16)]
}

/// Percent-encode one decoded segment, character by character.
pub open spec fn encode_seg(s: Seq<char>) -> Seq<char>
    decreases s.len(),
{
    if s.len() == 0 {
        Seq::empty()
    } else if needs_escape(s[0]) {
        escape_char(s[0]) + encode_seg(s.drop_first())
    } else {
        seq![s[0]] + encode_seg(s.drop_first())
    }
}

/// Render one decoded segment. A segment that spells a relative path step
/// is fully escaped so that a re-parse cannot mistake it for one.
pub open spec fn render_seg(s: Seq<char>) -> Seq<char> {
    if s == seq!['.'] || s == seq!['.', '.'] {
        encode_all(s)
    } else {
        encode_seg(s)
    }
}

/// Percent-encode every character of a segment, unconditionally.
pub open spec fn encode_all(s: Seq<char>) -> Seq<char>
    decreases s.len(),
{
    if s.len() == 0 {
        Seq::empty()
    } else {
        escape_char(s[0]) + encode_all(s.drop_first())
    }
}

/// Percent-decode one raw segment. Fails on `%` not followed by two
/// hexadecimal digits, and on an escape that decodes to the delimiter.
pub open spec fn decode_seg(s: Seq<char>) -> Option<Seq<char>>
    decreases s.len(),
{
    if s.len() == 0 {
        Some(Seq::empty())
    } else if s[0] == '%' {
        if s.len() >= 3 && is_hex_digit_char(s[1]) && is_hex_digit_char(s[2]) {
            let c = (16 * hex_value(s[1]) + hex_value(s[2])) as char;
            if c == '/' {
                None
            } else {
                match decode_seg(s.skip(3)) {
                    Some(r) => Some(seq![c] + r),
                    None => None,
                }
            }
        } else {
            None
        }
    } else {
        match decode_seg(s.drop_first()) {
            Some(r) => Some(seq![s[0]] + r),
            None => None,
        }
    }
}

/// The index of the first delimiter in `s`, or `s.len()` if there is none.
pub open spec fn find_slash(s: Seq<char>) -> int
    decreases s.len(),
{
    if s.len() == 0 {
        0
    } else if s[0] == '/' {
        0
    } else {
        1 + find_slash(s.drop_first())
    }
}

/// Split a character sequence at every delimiter.
pub open spec fn split_slash(s: Seq<char>) -> Seq<Seq<char>>
    decreases s.len(),
{
    let i = find_slash(s);
    if 0 <= i < s.len() {
        seq![s.take(i)] + split_slash(s.skip(i + 1))
    } else {
        seq![s]
    }
}

/// Join segments with the delimiter.
pub open spec fn join_slash(segs: Seq<Seq<char>>) -> Seq<char>
    decreases segs.len(),
{
    if segs.len() == 0 {
        Seq::empty()
    } else if segs.len() == 1 {
        segs[0]
    } else {
        segs[0] + seq!['/'] + join_slash(segs.drop_first())
    }
}

/// A raw (still encoded) segment that a parse accepts: non-empty, not a
/// relative path step, and free of ASCII control characters.
pub open spec fn raw_seg_ok(raw: Seq<char>) -> bool {
    &&& raw.len() > 0
    &&& raw != seq!['.']
    &&& raw != seq!['.', '.']
    &&& forall|i: int| 0 <= i < raw.len() ==> !is_control_char(#[trigger] raw[i])
}

/// Parse one raw segment: validate it, then percent-decode it.
pub open spec fn parse_seg(raw: Seq<char>) -> Option<Seq<char>> {
    if raw_seg_ok(raw) {
        decode_seg(raw)
    } else {
        None
    }
}

/// Parse a sequence of raw segments, failing if any one fails.
pub open spec fn parse_segs(raws: Seq<Seq<char>>) -> Option<Seq<Seq<char>>>
    decreases raws.len(),
{
    if raws.len() == 0 {
        Some(Seq::empty())
    } else {
        match parse_seg(raws[0]) {
            Some(d) => match parse_segs(raws.drop_first()) {
                Some(r) => Some(seq![d] + r),
                None => None,
            },
            None => None,
        }
    }
}

/// Parse a whole raw string: strip one leading and one trailing delimiter,
/// then split and parse the segments. The empty remainder is the root path.
pub open spec fn spec_parse(s: Seq<char>) -> Option<Seq<Seq<char>>> {
    let s1 = if s.len() > 0 && s[0] == '/' {
        s.drop_first()
    } else {
        s
    };
    if s1.len() == 0 {
        Some(Seq::empty())
    } else {
        let s2 = if s1.last() == '/' {
            s1.drop_last()
        } else {
            s1
        };
        parse_segs(split_slash(s2))
    }
}

/// Render a segment sequence in canonical slash-joined, percent-encoded form.
pub open spec fn spec_render(segs: Seq<Seq<char>>) -> Seq<char> {
    join_slash(segs.map_values(|s: Seq<char>| render_seg(s)))
}

/// `find_slash` returns an index within bounds; every character before it
/// differs from the delimiter, and it points at a delimiter unless it is
/// the length.
pub proof fn lemma_find_slash(s: Seq<char>)
    ensures
        0 <= find_slash(s) <= s.len(),
        forall|i: int| 0 <= i < find_slash(s) ==> s[i] != '/',
        find_slash(s) < s.len() ==> s[find_slash(s)] == '/',
    decreases s.len(),
{
    if s.len() == 0 {
    } else if s[0] == '/' {
    } else {
        lemma_find_slash(s.drop_first());
        assert forall|i: int| 0 <= i < find_slash(s) implies s[i] != '/' by {
            if i > 0 {
                assert(s.drop_first()[i - 1] != '/');
            }
        }
    }
}

/// In `a + "/" + b`, if `a` is delimiter-free the first delimiter sits
/// right after `a`.
pub proof fn lemma_find_slash_concat(a: Seq<char>, b: Seq<char>)
    requires
        !a.contains('/'),
    ensures
        find_slash(a + seq!['/'] + b) == a.len(),
    decreases a.len(),
{
    let s = a + seq!['/'] + b;
    if a.len() == 0 {
        assert(s[0] == '/');
    } else {
        assert(s[0] == a[0]);
        assert(!a.contains('/') ==> a[0] != '/');
        assert(a[0] != '/') by {
            assert(a.contains(a[0]));
        }
        assert(!a.drop_first().contains('/')) by {
            if a.drop_first().contains('/') {
                let i = choose|i: int| 0 <= i < a.drop_first().len() && a.drop_first()[i] == '/';
                assert(a[i + 1] == '/');
                assert(a.contains('/'));
            }
        }
        lemma_find_slash_concat(a.drop_first(), b);
        assert(s.drop_first() =~= a.drop_first() + seq!['/'] + b);
    }
}

/// A delimiter-free sequence has no delimiter to find.
pub proof fn lemma_find_slash_none(s: Seq<char>)
    requires
        !s.contains('/'),
    ensures
        find_slash(s) == s.len(),
{
    lemma_find_slash(s);
    if find_slash(s) < s.len() {
        assert(s.contains('/'));
    }
}

/// Splitting a join of delimiter-free segments recovers the segments.
pub proof fn lemma_split_join(segs: Seq<Seq<char>>)
    requires
        segs.len() >= 1,
        forall|i: int| 0 <= i < segs.len() ==> !(#[trigger] segs[i]).contains('/'),
    ensures
        split_slash(join_slash(segs)) == segs,
    decreases segs.len(),
{
    if segs.len() == 1 {
        lemma_find_slash_none(segs[0]);
        assert(split_slash(join_slash(segs)) =~= segs);
    } else {
        let rest = segs.drop_first();
        let s = join_slash(segs);
        assert(s == segs[0] + seq!['/'] + join_slash(rest));
        lemma_find_slash_concat(segs[0], join_slash(rest));
        let i = find_slash(s);
        assert(i == segs[0].len());
        lemma_find_slash(s);
        assert(0 <= i < s.len()) by {
            assert(s.len() == segs[0].len() + 1 + join_slash(rest).len());
        }
        assert(s.take(i) =~= segs[0]);
        assert(s.skip(i + 1) =~= join_slash(rest));
        lemma_split_join(rest);
        assert(split_slash(s) =~= seq![segs[0]] + split_slash(join_slash(rest)));
        assert(split_slash(join_slash(segs)) =~= segs);
    }
}

/// The segments that a split yields are delimiter-free.
pub proof fn lemma_split_no_slash(s: Seq<char>)
    ensures
        forall|i: int|
            0 <= i < split_slash(s).len() ==> !(#[trigger] split_slash(s)[i]).contains('/'),
    decreases s.len(),
{
    lemma_find_slash(s);
    let j = find_slash(s);
    if 0 <= j < s.len() {
        lemma_split_no_slash(s.skip(j + 1));
        assert forall|i: int|
            0 <= i < split_slash(s).len() implies !(#[trigger] split_slash(s)[i]).contains(
            '/',
        ) by {
            if i == 0 {
                if s.take(j).contains('/') {
                    let k = choose|k: int| 0 <= k < j && s.take(j)[k] == '/';
                    assert(s[k] != '/');
                }
            } else {
                assert(split_slash(s)[i] == split_slash(s.skip(j + 1))[i - 1]);
            }
        }
    } else {
        assert forall|i: int|
            0 <= i < split_slash(s).len() implies !(#[trigger] split_slash(s)[i]).contains(
            '/',
        ) by {
            if split_slash(s)[i].contains('/') {
                let k = choose|k: int| 0 <= k < s.len() && s[k] == '/';
                assert(s[k] != '/');
            }
        }
    }
}

/// A hexadecimal digit renders and reads back to the same value.
pub proof fn lemma_hex_roundtrip(v: int)
    requires
        0 <= v < 16,
    ensures
        is_hex_digit_char(hex_digit_char(v)),
        hex_value(hex_digit_char(v)) == v,
        !is_control_char(hex_digit_char(v)),
        hex_digit_char(v) != '/',
        hex_digit_char(v) != '%',
        hex_digit_char(v) != '.',
{
}

/// The three-character escape of a low character decodes back to it.
pub proof fn lemma_escape_roundtrip(c: char)
    requires
        (c as u32) < 0x80,
    ensures
        escape_char(c).len() == 3,
        escape_char(c)[0] == '%',
        is_hex_digit_char(escape_char(c)[1]),
        is_hex_digit_char(escape_char(c)[2]),
        16 * hex_value(escape_char(c)[1]) + hex_value(escape_char(c)[2]) == c as int,
{
    lemma_hex_roundtrip((c as int) / 16);
    lemma_hex_roundtrip((c as int) % 16);
}

/// Every character an encoded segment contains: never a control character,
/// never the delimiter; and encoding is empty only for the empty segment.
pub proof fn lemma_encode_shape(s: Seq<char>)
    requires
        !s.contains('/'),
    ensures
        encode_seg(s).len() >= s.len(),
        encode_seg(s).len() == 0 <==> s.len() == 0,
        forall|i: int|
            0 <= i < encode_seg(s).len() ==> !is_control_char(#[trigger] encode_seg(s)[i])
                && encode_seg(s)[i] != '/',
    decreases s.len(),
{
    if s.len() > 0 {
        let c = s[0];
        assert(c != '/') by {
            assert(s.contains(s[0]) == false || true);
            if c == '/' {
                assert(s.contains('/'));
            }
        }
        assert(!s.drop_first().contains('/')) by {
            if s.drop_first().contains('/') {
                let i = choose|i: int|
                    0 <= i < s.drop_first().len() && s.drop_first()[i] == '/';
                assert(s[i + 1] == '/');
            }
        }
        lemma_encode_shape(s.drop_first());
        if needs_escape(c) {
            assert((c as u32) < 0x80);
            lemma_escape_roundtrip(c);
            lemma_hex_roundtrip((c as int) / 16);
            lemma_hex_roundtrip((c as int) % 16);
        }
    }
}

/// Decoding inverts encoding on delimiter-free segments.
pub proof fn lemma_decode_encode(s: Seq<char>)
    requires
        !s.contains('/'),
    ensures
        decode_seg(encode_seg(s)) == Some(s),
    decreases s.len(),
{
    if s.len() == 0 {
        assert(decode_seg(encode_seg(s)) =~= Some(s));
    } else {
        let c = s[0];
        assert(c != '/') by {
            if c == '/' {
                assert(s.contains('/'));
            }
        }
        assert(!s.drop_first().contains('/')) by {
            if s.drop_first().contains('/') {
                let i = choose|i: int|
                    0 <= i < s.drop_first().len() && s.drop_first()[i] == '/';
                assert(s[i + 1] == '/');
            }
        }
        lemma_decode_encode(s.drop_first());
        let e = encode_seg(s);
        if needs_escape(c) {
            assert((c as u32) < 0x80);
            lemma_escape_roundtrip(c);
            assert(e == escape_char(c) + encode_seg(s.drop_first()));
            assert(e.len() >= 3);
            assert(e[0] == '%');
            assert(e[1] == escape_char(c)[1]);
            assert(e[2] == escape_char(c)[2]);
            let v = 16 * hex_value(e[1]) + hex_value(e[2]);
            assert(v == c as int);
            assert((v as char) == c);
            assert(e.skip(3) =~= encode_seg(s.drop_first()));
            assert(decode_seg(e) == Some(seq![c] + s.drop_first()));
            assert(seq![c] + s.drop_first() =~= s);
        } else {
            assert(e == seq![c] + encode_seg(s.drop_first()));
            assert(e[0] == c);
            assert(c != '%');
            assert(e.drop_first() =~= encode_seg(s.drop_first()));
            assert(decode_seg(e) == Some(seq![c] + s.drop_first()));
            assert(seq![c] + s.drop_first() =~= s);
        }
    }
}

/// An encoded segment never spells a relative path step unless the segment
/// itself did.
pub proof fn lemma_encode_not_dot(s: Seq<char>)
    requires
        !s.contains('/'),
        s != seq!['.'],
        s != seq!['.', '.'],
    ensures
        encode_seg(s) != seq!['.'],
        encode_seg(s) != seq!['.', '.'],
{
    lemma_encode_shape(s);
    if s.len() == 0 {
    } else {
        let c = s[0];
        let rest = s.drop_first();
        assert(!rest.contains('/')) by {
            if rest.contains('/') {
                let i = choose|i: int| 0 <= i < rest.len() && rest[i] == '/';
                assert(s[i + 1] == '/');
            }
        }
        lemma_encode_shape(rest);
        if needs_escape(c) {
            assert(encode_seg(s).len() >= 3);
        } else {
            // encode_seg(s) == [c] + encode_seg(rest)
            if encode_seg(s) == seq!['.'] {
                assert(encode_seg(s)[0] == c);
                assert(c == '.');
                assert(encode_seg(rest).len() == 0);
                assert(rest.len() == 0);
                assert(s =~= seq!['.']);
            }
            if encode_seg(s) == seq!['.', '.'] {
                assert(encode_seg(s)[0] == c);
                assert(c == '.');
                assert(encode_seg(rest).len() == 1);
                if rest.len() > 0 {
                    let c2 = rest[0];
                    let rest2 = rest.drop_first();
                    assert(!rest2.contains('/')) by {
                        if rest2.contains('/') {
                            let i = choose|i: int| 0 <= i < rest2.len() && rest2[i] == '/';
                            assert(rest[i + 1] == '/');
                        }
                    }
                    lemma_encode_shape(rest2);
                    if needs_escape(c2) {
                        assert(encode_seg(rest).len() >= 3);
                    } else {
                        assert(encode_seg(rest)[0] == c2);
                        assert(c2 == '.');
                        assert(encode_seg(rest2).len() == 0);
                        assert(rest2.len() == 0);
                        assert(s =~= seq!['.', '.']);
                    }
                }
            }
        }
    }
}

/// A rendered well-formed segment is accepted by a re-parse and decodes
/// back to the original segment.
pub proof fn lemma_render_seg_roundtrip(s: Seq<char>)
    requires
        seg_wf(s),
    ensures
        raw_seg_ok(render_seg(s)),
        !render_seg(s).contains('/'),
        decode_seg(render_seg(s)) == Some(s),
{
    if s == seq!['.'] || s == seq!['.', '.'] {
        lemma_hex_roundtrip(2);
        lemma_hex_roundtrip(14);
        assert(('.' as int) / 16 == 2);
        assert(('.' as int) % 16 == 14);
        let e1 = escape_char('.');
        assert(e1 == seq!['%', hex_digit_char(2), hex_digit_char(14)]);
        if s == seq!['.'] {
            let r = render_seg(s);
            assert(r =~= e1 + encode_all(s.drop_first()));
            assert(s.drop_first().len() == 0);
            assert(r =~= e1);
            assert(r.len() == 3);
            assert(decode_seg(r.skip(3)) =~= Some(Seq::<char>::empty()));
            assert(16 * hex_value(r[1]) + hex_value(r[2]) == '.' as int);
            assert((('.' as int) as char) == '.');
            assert(decode_seg(r) == Some(seq!['.'] + Seq::<char>::empty()));
            assert(seq!['.'] + Seq::<char>::empty() =~= s);
            assert forall|i: int| 0 <= i < r.len() implies !is_control_char(#[trigger] r[i]) by {
            }
            assert(r != seq!['.'] && r != seq!['.', '.']) by {
                assert(r.len() == 3);
            }
            assert(!r.contains('/')) by {
                if r.contains('/') {
                    let i = choose|i: int| 0 <= i < r.len() && r[i] == '/';
                }
            }
        } else {
            let r = render_seg(s);
            assert(s.drop_first() =~= seq!['.']);
            assert(s.drop_first().drop_first().len() == 0);
            assert(encode_all(s.drop_first()) =~= e1 + encode_all(s.drop_first().drop_first()));
            assert(encode_all(s.drop_first()) =~= e1);
            assert(r =~= e1 + e1);
            assert(r.len() == 6);
            assert(r[0] == '%' && r[3] == '%');
            assert(16 * hex_value(r[1]) + hex_value(r[2]) == '.' as int);
            assert((('.' as int) as char) == '.');
            let r3 = r.skip(3);
            assert(r3 =~= e1);
            assert(16 * hex_value(r3[1]) + hex_value(r3[2]) == '.' as int);
            assert(decode_seg(r3.skip(3)) =~= Some(Seq::<char>::empty()));
            assert(decode_seg(r3) == Some(seq!['.'] + Seq::<char>::empty()));
            assert(seq!['.'] + Seq::<char>::empty() =~= seq!['.']);
            assert(decode_seg(r) == Some(seq!['.'] + seq!['.']));
            assert(seq!['.'] + seq!['.'] =~= s);
            assert forall|i: int| 0 <= i < r.len() implies !is_control_char(#[trigger] r[i]) by {
            }
            assert(r != seq!['.'] && r != seq!['.', '.']) by {
                assert(r.len() == 6);
            }
            assert(!r.contains('/')) by {
                if r.contains('/') {
                    let i = choose|i: int| 0 <= i < r.len() && r[i] == '/';
                }
            }
        }
    } else {
        lemma_encode_shape(s);
        lemma_decode_encode(s);
        lemma_encode_not_dot(s);
        let r = render_seg(s);
        assert(!r.contains('/')) by {
            if r.contains('/') {
                let i = choose|i: int| 0 <= i < r.len() && r[i] == '/';
            }
        }
    }
}

/// What a successful decode of a delimiter-free, non-empty raw segment
/// yields is well-formed.
pub proof fn lemma_decode_wf(raw: Seq<char>)
    requires
        !raw.contains('/'),
        raw.len() > 0,
        decode_seg(raw) is Some,
    ensures
        seg_wf(decode_seg(raw)->Some_0),
    decreases raw.len(),
{
    let d = decode_seg(raw)->Some_0;
    assert(raw[0] != '/') by {
        if raw[0] == '/' {
            assert(raw.contains('/'));
        }
    }
    if raw[0] == '%' {
        let c = (16 * hex_value(raw[1]) + hex_value(raw[2])) as char;
        let rest = raw.skip(3);
        assert(!rest.contains('/')) by {
            if rest.contains('/') {
                let i = choose|i: int| 0 <= i < rest.len() && rest[i] == '/';
                assert(raw[i + 3] == '/');
            }
        }
        if rest.len() > 0 {
            lemma_decode_wf(rest);
        }
        let r = decode_seg(rest)->Some_0;
        assert(d == seq![c] + r);
        assert(d[0] == c);
        assert(!d.contains('/')) by {
            if d.contains('/') {
                let i = choose|i: int| 0 <= i < d.len() && d[i] == '/';
                if i > 0 {
                    assert(r[i - 1] == '/');
                    assert(r.contains('/'));
                    if rest.len() == 0 {
                        assert(r =~= Seq::<char>::empty());
                    }
                }
            }
        }
    } else {
        let rest = raw.drop_first();
        assert(!rest.contains('/')) by {
            if rest.contains('/') {
                let i = choose|i: int| 0 <= i < rest.len() && rest[i] == '/';
                assert(raw[i + 1] == '/');
            }
        }
        if rest.len() > 0 {
            lemma_decode_wf(rest);
        }
        let r = decode_seg(rest)->Some_0;
        assert(d == seq![raw[0]] + r);
        assert(!d.contains('/')) by {
            if d.contains('/') {
                let i = choose|i: int| 0 <= i < d.len() && d[i] == '/';
                if i > 0 {
                    assert(r[i - 1] == '/');
                    assert(r.contains('/'));
                    if rest.len() == 0 {
                        assert(r =~= Seq::<char>::empty());
                    }
                }
            }
        }
    }
}

/// Parsing the rendered segments recovers them.
pub proof fn lemma_parse_segs_render(segs: Seq<Seq<char>>)
    requires
        segs_wf(segs),
    ensures
        parse_segs(segs.map_values(|s: Seq<char>| render_seg(s))) == Some(segs),
    decreases segs.len(),
{
    let raws = segs.map_values(|s: Seq<char>| render_seg(s));
    if segs.len() == 0 {
        assert(parse_segs(raws) =~= Some(segs));
    } else {
        lemma_render_seg_roundtrip(segs[0]);
        assert(raws[0] == render_seg(segs[0]));
        lemma_parse_segs_render(segs.drop_first());
        assert(raws.drop_first() =~= segs.drop_first().map_values(
            |s: Seq<char>| render_seg(s),
        ));
        assert(parse_seg(raws[0]) == Some(segs[0]));
        assert(parse_segs(raws) == Some(seq![segs[0]] + segs.drop_first()));
        assert(seq![segs[0]] + segs.drop_first() =~= segs);
    }
}

/// A join of non-empty, delimiter-free parts is non-empty and has no
/// delimiter at either edge.
pub proof fn lemma_join_edges(xs: Seq<Seq<char>>)
    requires
        xs.len() >= 1,
        forall|i: int|
            0 <= i < xs.len() ==> (#[trigger] xs[i]).len() > 0 && !xs[i].contains('/'),
    ensures
        join_slash(xs).len() > 0,
        join_slash(xs)[0] != '/',
        join_slash(xs).last() != '/',
    decreases xs.len(),
{
    let j = join_slash(xs);
    if xs.len() == 1 {
        assert(j == xs[0]);
        assert(j[0] != '/') by {
            if j[0] == '/' {
                assert(xs[0].contains('/'));
            }
        }
        assert(j.last() != '/') by {
            if j.last() == '/' {
                assert(xs[0].contains('/'));
            }
        }
    } else {
        lemma_join_edges(xs.drop_first());
        let rest = join_slash(xs.drop_first());
        assert(j == xs[0] + seq!['/'] + rest);
        assert(j[0] == xs[0][0]);
        assert(j[0] != '/') by {
            if j[0] == '/' {
                assert(xs[0].contains('/'));
            }
        }
        assert(j.last() == rest.last());
    }
}

/// Rendering a well-formed segment sequence and parsing it back yields the
/// same sequence: the canonical form is stable.
pub proof fn lemma_render_parse(segs: Seq<Seq<char>>)
    requires
        segs_wf(segs),
    ensures
        spec_parse(spec_render(segs)) == Some(segs),
{
    let raws = segs.map_values(|s: Seq<char>| render_seg(s));
    let s = spec_render(segs);
    if segs.len() == 0 {
        assert(s =~= Seq::<char>::empty());
    } else {
        assert forall|i: int|
            0 <= i < raws.len() implies (#[trigger] raws[i]).len() > 0 && !raws[i].contains(
            '/',
        ) by {
            lemma_render_seg_roundtrip(segs[i]);
        }
        lemma_join_edges(raws);
        assert(s[0] != '/');
        assert(s.last() != '/');
        lemma_split_join(raws);
        lemma_parse_segs_render(segs);
    }
}

/// Round-trip law: any string that parses renders to a canonical form that
/// parses back to the same path.
pub proof fn lemma_parse_roundtrip(s: Seq<char>)
    requires
        spec_parse(s) is Some,
    ensures
        segs_wf(spec_parse(s)->Some_0),
        spec_parse(spec_render(spec_parse(s)->Some_0)) == spec_parse(s),
{
    lemma_parse_wf(s);
    lemma_render_parse(spec_parse(s)->Some_0);
}

/// Whatever a parse accepts is a well-formed segment sequence.
pub proof fn lemma_parse_wf(s: Seq<char>)
    requires
        spec_parse(s) is Some,
    ensures
        segs_wf(spec_parse(s)->Some_0),
{
    let s1 = if s.len() > 0 && s[0] == '/' {
        s.drop_first()
    } else {
        s
    };
    if s1.len() == 0 {
    } else {
        let s2 = if s1.last() == '/' {
            s1.drop_last()
        } else {
            s1
        };
        lemma_split_no_slash(s2);
        lemma_parse_segs_wf(split_slash(s2));
    }
}

/// Each segment that `parse_segs` accepts from delimiter-free raw segments
/// is well-formed.
pub proof fn lemma_parse_segs_wf(raws: Seq<Seq<char>>)
    requires
        forall|i: int| 0 <= i < raws.len() ==> !(#[trigger] raws[i]).contains('/'),
        parse_segs(raws) is Some,
    ensures
        segs_wf(parse_segs(raws)->Some_0),
        parse_segs(raws)->Some_0.len() == raws.len(),
    decreases raws.len(),
{
    if raws.len() == 0 {
    } else {
        let d = parse_seg(raws[0])->Some_0;
        lemma_decode_wf(raws[0]);
        lemma_parse_segs_wf(raws.drop_first());
        let r = parse_segs(raws.drop_first())->Some_0;
        let whole = parse_segs(raws)->Some_0;
        assert(whole == seq![d] + r);
        assert(seg_wf(whole[0]));
        assert forall|i: int| 0 <= i < whole.len() implies seg_wf(#[trigger] whole[i]) by {
            if i > 0 {
                assert(whole[i] == r[i - 1]);
            }
        }
    }
}

/// `find_slash` is pinned down by its characterisation: `k` delimiter-free
/// characters followed by a delimiter or the end.
pub proof fn lemma_find_slash_at(s: Seq<char>, k: int)
    requires
        0 <= k <= s.len(),
        forall|i: int| 0 <= i < k ==> s[i] != '/',
        k == s.len() || s[k] == '/',
    ensures
        find_slash(s) == k,
    decreases s.len(),
{
    if s.len() == 0 {
    } else if s[0] == '/' {
        assert(k == 0);
    } else {
        assert(k >= 1);
        lemma_find_slash_at(s.drop_first(), k - 1);
    }
}

/// Encoding distributes over concatenation.
pub proof fn lemma_encode_concat(a: Seq<char>, b: Seq<char>)
    ensures
        encode_seg(a + b) == encode_seg(a) + encode_seg(b),
    decreases a.len(),
{
    if a.len() == 0 {
        assert(a + b =~= b);
        assert(encode_seg(a) + encode_seg(b) =~= encode_seg(b));
    } else {
        lemma_encode_concat(a.drop_first(), b);
        assert((a + b).drop_first() =~= a.drop_first() + b);
        assert((a + b)[0] == a[0]);
        if needs_escape(a[0]) {
            assert(escape_char(a[0]) + (encode_seg(a.drop_first()) + encode_seg(b)) =~= (
            escape_char(a[0]) + encode_seg(a.drop_first())) + encode_seg(b));
        } else {
            assert(seq![a[0]] + (encode_seg(a.drop_first()) + encode_seg(b)) =~= (seq![a[0]]
                + encode_seg(a.drop_first())) + encode_seg(b));
        }
    }
}

/// Joining after appending one more part adds one delimiter and the part.
pub proof fn lemma_join_push(xs: Seq<Seq<char>>, x: Seq<char>)
    ensures
        xs.len() == 0 ==> join_slash(xs.push(x)) == x,
        xs.len() > 0 ==> join_slash(xs.push(x)) == join_slash(xs) + seq!['/'] + x,
    decreases xs.len(),
{
    if xs.len() == 0 {
        assert(xs.push(x)[0] == x);
    } else if xs.len() == 1 {
        assert(xs.push(x).drop_first() =~= seq![x]);
        assert(xs.push(x)[0] == xs[0]);
        assert(join_slash(seq![x]) == x);
        assert(join_slash(xs.push(x)) == xs[0] + seq!['/'] + join_slash(xs.push(x).drop_first()));
        assert(join_slash(xs) == xs[0]);
    } else {
        lemma_join_push(xs.drop_first(), x);
        assert(xs.push(x).drop_first() =~= xs.drop_first().push(x));
        assert(join_slash(xs.push(x)) == xs[0] + seq!['/'] + join_slash(xs.drop_first().push(x)));
        assert(xs[0] + seq!['/'] + (join_slash(xs.drop_first()) + seq!['/'] + x) =~= (xs[0]
            + seq!['/'] + join_slash(xs.drop_first())) + seq!['/'] + x);
    }
}

/// A well-formed decoded segment: non-empty and free of the delimiter.
pub open spec fn seg_wf(s: Seq<char>) -> bool {
    s.len() > 0 && !s.contains('/')
}

/// A well-formed segment sequence.
pub open spec fn segs_wf(segs: Seq<Seq<char>>) -> bool {
    forall|i: int| 0 <= i < segs.len() ==> seg_wf(#[trigger] segs[i])
}

/// The segments taken verbatim from a raw string: split at delimiters,
/// empty segments dropped, no decoding.
pub open spec fn from_raw_segs(raws: Seq<Seq<char>>) -> Seq<Seq<char>>
    decreases raws.len(),
{
    if raws.len() == 0 {
        Seq::empty()
    } else if raws[0].len() > 0 {
        seq![raws[0]] + from_raw_segs(raws.drop_first())
    } else {
        from_raw_segs(raws.drop_first())
    }
}

/// What [`Path::from_raw`] yields on a raw string.
pub open spec fn spec_from_raw(s: Seq<char>) -> Seq<Seq<char>> {
    from_raw_segs(split_slash(s))
}

/// A normalized, slash-delimited virtual path: a sequence of non-empty,
/// delimiter-free segments.
#[derive(Debug)]
pub struct Path {
    segments: Vec<String>,
}

impl View for Path {
    type V = Seq<Seq<char>>;

    closed spec fn view(&self) -> Seq<Seq<char>> {
        self.segments.deep_view()
    }
}

impl Clone for Path {
    fn clone(&self) -> (r: Self)
        ensures
            r@ == self@,
    {
        let mut segments: Vec<String> = Vec::new();
        let mut i: usize = 0;
        while i < self.segments.len()
            invariant
                i <= self.segments.len(),
                segments@.len() == i,
                forall|j: int| 0 <= j < i ==> segments@[j]@ == self.segments@[j]@,
            decreases self.segments.len() - i,
        {
            segments.push(self.segments[i].clone());
            i = i + 1;
        }
        let r = Path { segments };
        proof {
            assert(r@ =~= self@);
        }
        r
    }
}

impl PartialEq for Path {
    fn eq(&self, other: &Path) -> (r: bool) {
        if self.segments.len() != other.segments.len() {
            proof {
                assert(self@.len() == self.segments@.len());
                assert(other@.len() == other.segments@.len());
            }
            return false;
        }
        let n = self.segments.len();
        let mut i: usize = 0;
        while i < n
            invariant
                i <= n,
                n == self.segments@.len() == other.segments@.len(),
                forall|j: int| 0 <= j < i ==> self.segments@[j]@ == other.segments@[j]@,
            decreases n - i,
        {
            if !(self.segments[i] == other.segments[i]) {
                proof {
                    assert(self@[i as int] != other@[i as int]);
                }
                return false;
            }
            i = i + 1;
        }
        proof {
            assert(self@ =~= other@);
        }
        true
    }
}

impl vstd::std_specs::cmp::PartialEqSpecImpl for Path {
    open spec fn obeys_eq_spec() -> bool {
        true
    }

    open spec fn eq_spec(&self, other: &Path) -> bool {
        self@ == other@
    }
}

impl Eq for Path {

}

impl Path {
    /// Every segment is non-empty and free of the delimiter.
    pub open spec fn wf(&self) -> bool {
        segs_wf(self@)
    }

    /// The root path, with no segments.
    pub fn root() -> (r: Path)
        ensures
            r@ == Seq::<Seq<char>>::empty(),
            r.wf(),
    {
        let r = Path { segments: Vec::new() };
        proof {
            assert(r@ =~= Seq::<Seq<char>>::empty());
        }
        r
    }

    /// The number of segments.
    pub fn depth(&self) -> (r: usize)
        ensures
            r == self@.len(),
    {
        self.segments.len()
    }

    /// The decoded segments, in order.
    pub fn segments(&self) -> (r: &Vec<String>)
        ensures
            r.deep_view() == self@,
    {
        &self.segments
    }
}

impl Path {
    /// Parse a raw string: strip one leading and one trailing delimiter,
    /// split at delimiters, percent-decode every segment, and reject empty
    /// segments, relative path steps, control characters and malformed
    /// escapes.
    pub fn parse(s: &str) -> (r: Result<Path, Error>)
        ensures
            match r {
                Ok(p) => spec_parse(s@) == Some(p@) && p.wf(),
                Err(e) => {
                    &&& spec_parse(s@) is None
                    &&& e matches Error::InvalidPath { raw } && raw@ == s@
                },
            },
    {
        let chars = str_to_chars(s);
        let n = chars.len();
        let start0: usize = if n > 0 && chars[0] == '/' {
            1
        } else {
            0
        };
        let ghost s1 = if s@.len() > 0 && s@[0] == '/' {
            s@.drop_first()
        } else {
            s@
        };
        proof {
            assert(s1.len() == n - start0);
        }
        if start0 == n {
            let r = Path { segments: Vec::new() };
            proof {
                assert(r@ =~= Seq::<Seq<char>>::empty());
            }
            return Ok(r);
        }
        let end: usize = if chars[n - 1] == '/' {
            n - 1
        } else {
            n
        };
        let ghost s2 = if s1.last() == '/' {
            s1.drop_last()
        } else {
            s1
        };
        proof {
            assert(s1.last() == s@[n - 1]);
            assert(s2 =~= s@.subrange(start0 as int, end as int));
            assert(spec_parse(s@) == parse_segs(split_slash(s2)));
        }
        let mut segs: Vec<String> = Vec::new();
        let mut i: usize = start0;
        loop
            invariant
                start0 <= i <= end <= n == chars@.len(),
                chars@ == s@,
                s2 == s@.subrange(start0 as int, end as int),
                spec_parse(s@) == parse_segs(split_slash(s2)),
                parse_segs(split_slash(s2)) == match parse_segs(
                    split_slash(chars@.subrange(i as int, end as int)),
                ) {
                    Some(rest) => Some(segs.deep_view() + rest),
                    None => None::<Seq<Seq<char>>>,
                },
            decreases end - i,
        {
            let ghost rem = chars@.subrange(i as int, end as int);
            // find the next delimiter, or the end
            let mut j: usize = i;
            while j < end && chars[j] != '/'
                invariant
                    i <= j <= end <= chars@.len(),
                    forall|k: int| i <= k < j ==> chars@[k] != '/',
                decreases end - j,
            {
                j = j + 1;
            }
            proof {
                assert(rem.len() == end - i);
                assert forall|k: int| 0 <= k < j - i implies rem[k] != '/' by {
                    assert(rem[k] == chars@[i + k]);
                }
                if j < end {
                    assert(rem[j - i] == chars@[i + (j - i)]);
                }
                lemma_find_slash_at(rem, j - i);
            }
            if !raw_seg_check(&chars, i, j) {
                proof {
                    let raw = chars@.subrange(i as int, j as int);
                    assert(raw =~= rem.take(j - i));
                    if j < end {
                        assert(split_slash(rem) == seq![rem.take(j - i)] + split_slash(
                            rem.skip(j - i + 1),
                        ));
                        assert(split_slash(rem)[0] == raw);
                    } else {
                        assert(rem.take(j - i) =~= rem);
                        assert(split_slash(rem) == seq![rem]);
                        assert(split_slash(rem)[0] == raw);
                    }
                    assert(parse_seg(raw) is None);
                    assert(parse_segs(split_slash(rem)) is None);
                }
                return Err(Error::InvalidPath { raw: s.to_owned() });
            }
            let decoded = decode_segment(&chars, i, j);
            let ghost raw = chars@.subrange(i as int, j as int);
            proof {
                assert(raw =~= rem.take(j - i));
                if j < end {
                    assert(split_slash(rem) == seq![rem.take(j - i)] + split_slash(
                        rem.skip(j - i + 1),
                    ));
                    assert(split_slash(rem)[0] == raw);
                    assert(split_slash(rem).drop_first() =~= split_slash(rem.skip(j - i + 1)));
                } else {
                    assert(rem.take(j - i) =~= rem);
                    assert(split_slash(rem) == seq![rem]);
                    assert(split_slash(rem)[0] == raw);
                    assert(split_slash(rem).drop_first() =~= Seq::<Seq<char>>::empty());
                }
            }
            match decoded {
                None => {
                    proof {
                        assert(parse_seg(raw) is None);
                        assert(parse_segs(split_slash(rem)) is None);
                    }
                    return Err(Error::InvalidPath { raw: s.to_owned() });
                },
                Some(d) => {
                    let ghost prev_segs = segs.deep_view();
                    segs.push(d);
                    proof {
                        assert(segs.deep_view() =~= prev_segs.push(d@));
                        assert(parse_seg(raw) == Some(d@));
                    }
                    if j == end {
                        proof {
                            assert(parse_segs(Seq::<Seq<char>>::empty()) == Some(
                                Seq::<Seq<char>>::empty(),
                            ));
                            assert(parse_segs(split_slash(rem)) == Some(
                                seq![d@] + Seq::<Seq<char>>::empty(),
                            ));
                            assert(seq![d@] + Seq::<Seq<char>>::empty() =~= seq![d@]);
                            assert(prev_segs + seq![d@] =~= segs.deep_view());
                            assert(parse_segs(split_slash(s2)) == Some(segs.deep_view()));
                        }
                        let r = Path { segments: segs };
                        proof {
                            lemma_parse_wf(s@);
                        }
                        return Ok(r);
                    }
                    proof {
                        let tail = chars@.subrange(j + 1, end as int);
                        assert(rem.skip(j - i + 1) =~= tail);
                        if parse_segs(split_slash(tail)) is Some {
                            let rest = parse_segs(split_slash(tail))->Some_0;
                            assert(parse_segs(split_slash(rem)) == Some(seq![d@] + rest));
                            assert(prev_segs + (seq![d@] + rest) =~= segs.deep_view() + rest);
                        } else {
                            assert(parse_segs(split_slash(rem)) is None);
                        }
                    }
                    i = j + 1;
                },
            }
        }
    }
}

impl Path {
    /// Take a raw string's segments verbatim: split at delimiters and drop
    /// empty segments. No percent-decoding and no rejection: every string
    /// maps to some path.
    pub fn from_raw(s: &str) -> (r: Path)
        ensures
            r@ == spec_from_raw(s@),
            r.wf(),
    {
        let chars = str_to_chars(s);
        let n = chars.len();
        let mut segs: Vec<String> = Vec::new();
        let mut i: usize = 0;
        proof {
            assert(chars@.subrange(0, n as int) =~= s@);
            assert(segs.deep_view() =~= Seq::<Seq<char>>::empty());
            assert(Seq::<Seq<char>>::empty() + from_raw_segs(split_slash(s@)) =~= from_raw_segs(
                split_slash(s@),
            ));
        }
        loop
            invariant
                i <= n == chars@.len(),
                chars@ == s@,
                spec_from_raw(s@) == segs.deep_view() + from_raw_segs(
                    split_slash(chars@.subrange(i as int, n as int)),
                ),
                segs_wf(segs.deep_view()),
            decreases n - i,
        {
            let ghost rem = chars@.subrange(i as int, n as int);
            let mut j: usize = i;
            while j < n && chars[j] != '/'
                invariant
                    i <= j <= n <= chars@.len(),
                    forall|k: int| i <= k < j ==> chars@[k] != '/',
                decreases n - j,
            {
                j = j + 1;
            }
            proof {
                assert(rem.len() == n - i);
                assert forall|k: int| 0 <= k < j - i implies rem[k] != '/' by {
                    assert(rem[k] == chars@[i + k]);
                }
                if j < n {
                    assert(rem[j - i] == chars@[i + (j - i)]);
                }
                lemma_find_slash_at(rem, j - i);
            }
            let ghost raw = chars@.subrange(i as int, j as int);
            let ghost prev_segs = segs.deep_view();
            proof {
                assert(raw =~= rem.take(j - i));
                if j < n {
                    assert(split_slash(rem) == seq![rem.take(j - i)] + split_slash(
                        rem.skip(j - i + 1),
                    ));
                    assert(split_slash(rem)[0] == raw);
                    assert(split_slash(rem).drop_first() =~= split_slash(rem.skip(j - i + 1)));
                } else {
                    assert(rem.take(j - i) =~= rem);
                    assert(split_slash(rem) == seq![rem]);
                    assert(split_slash(rem)[0] == raw);
                    assert(split_slash(rem).drop_first() =~= Seq::<Seq<char>>::empty());
                }
            }
            if j > i {
                // non-empty raw segment: keep it verbatim
                let mut seg: Vec<char> = Vec::new();
                let mut t: usize = i;
                while t < j
                    invariant
                        i <= t <= j <= chars@.len(),
                        seg@ == chars@.subrange(i as int, t as int),
                    decreases j - t,
                {
                    seg.push(chars[t]);
                    proof {
                        assert(chars@.subrange(i as int, t + 1) =~= chars@.subrange(
                            i as int,
                            t as int,
                        ).push(chars@[t as int]));
                    }
                    t = t + 1;
                }
                let d = chars_to_string(&seg);
                segs.push(d);
                proof {
                    assert(segs.deep_view() =~= prev_segs.push(raw));
                    assert(seg_wf(raw)) by {
                        if raw.contains('/') {
                            let k = choose|k: int| 0 <= k < raw.len() && raw[k] == '/';
                            assert(raw[k] == chars@[i + k]);
                        }
                    }
                }
            } else {
                proof {
                    assert(raw.len() == 0);
                    assert(segs.deep_view() =~= prev_segs);
                }
            }
            proof {
                let ghost cur = from_raw_segs(split_slash(rem));
                if j > i {
                    assert(cur == seq![raw] + from_raw_segs(split_slash(rem).drop_first()));
                    assert(prev_segs + cur =~= segs.deep_view() + from_raw_segs(
                        split_slash(rem).drop_first(),
                    ));
                } else {
                    assert(cur == from_raw_segs(split_slash(rem).drop_first()));
                }
            }
            if j == n {
                proof {
                    assert(from_raw_segs(Seq::<Seq<char>>::empty()) =~= Seq::<Seq<char>>::empty());
                    assert(segs.deep_view() + Seq::<Seq<char>>::empty() =~= segs.deep_view());
                }
                let r = Path { segments: segs };
                return r;
            }
            proof {
                assert(rem.skip(j - i + 1) =~= chars@.subrange(j + 1, n as int));
            }
            i = j + 1;
        }
    }

    /// Render the canonical slash-joined, percent-encoded form.
    pub fn as_str(&self) -> (r: String)
        requires
            self.wf(),
        ensures
            r@ == spec_render(self@),
    {
        let mut out: Vec<char> = Vec::new();
        let n = self.segments.len();
        let mut k: usize = 0;
        while k < n
            invariant
                k <= n == self.segments@.len(),
                self.wf(),
                out@ == join_slash(
                    self@.take(k as int).map_values(|s: Seq<char>| render_seg(s)),
                ),
            decreases n - k,
        {
            let ghost before = out@;
            let ghost mapped_k = self@.take(k as int).map_values(|s: Seq<char>| render_seg(s));
            if k > 0 {
                out.push('/');
            }
            let ghost seg_start = out@.len();
            proof {
                assert(self@[k as int] == self.segments@[k as int]@);
                assert(seg_wf(self.segments@[k as int]@));
            }
            render_segment_into(&self.segments[k], &mut out);
            proof {
                let seg = self@[k as int];
                assert(self.segments@[k as int]@ == seg);
                let mapped_k1 = self@.take(k + 1).map_values(|s: Seq<char>| render_seg(s));
                assert(self@.take(k + 1) =~= self@.take(k as int).push(seg));
                assert(mapped_k1 =~= mapped_k.push(render_seg(seg)));
                lemma_join_push(mapped_k, render_seg(seg));
                if k == 0 {
                    assert(mapped_k.len() == 0);
                    assert(out@ == before + render_seg(seg));
                    assert(before =~= Seq::<char>::empty());
                    assert(out@ =~= join_slash(mapped_k1));
                } else {
                    assert(mapped_k.len() == k);
                    assert(out@ == before + seq!['/'] + render_seg(seg));
                    assert(out@ =~= join_slash(mapped_k) + seq!['/'] + render_seg(seg));
                    assert(out@ =~= join_slash(mapped_k1));
                }
            }
            k = k + 1;
        }
        proof {
            assert(self@.take(n as int) =~= self@);
        }
        chars_to_string(&out)
    }
}

/// Append the rendering of one segment to `out`.
fn render_segment_into(seg: &String, out: &mut Vec<char>)
    requires
        seg_wf(seg@),
    ensures
        final(out)@ == old(out)@ + render_seg(seg@),
{
    let s = seg.as_str();
    let n = s.unicode_len();
    // a segment that spells a relative path step is escaped whole
    if n == 1 && s.get_char(0) == '.' {
        proof {
            assert(seg@ =~= seq!['.']);
        }
        out.push('%');
        out.push('2');
        out.push('E');
        proof {
            lemma_render_dot();
            assert(out@ =~= old(out)@ + render_seg(seg@));
        }
        return ;
    }
    if n == 2 && s.get_char(0) == '.' && s.get_char(1) == '.' {
        proof {
            assert(seg@ =~= seq!['.', '.']);
        }
        out.push('%');
        out.push('2');
        out.push('E');
        out.push('%');
        out.push('2');
        out.push('E');
        proof {
            lemma_render_dot_dot();
            assert(out@ =~= old(out)@ + render_seg(seg@));
        }
        return ;
    }
    proof {
        if seg@ == seq!['.'] {
            assert(seg@.len() == 1 && seg@[0] == '.');
        }
        if seg@ == seq!['.', '.'] {
            assert(seg@.len() == 2 && seg@[0] == '.' && seg@[1] == '.');
        }
        assert(render_seg(seg@) == encode_seg(seg@));
    }
    let ghost base = out@;
    let mut t: usize = 0;
    while t < n
        invariant
            t <= n == seg@.len(),
            s@ == seg@,
            seg_wf(seg@),
            out@ == base + encode_seg(seg@.take(t as int)),
        decreases n - t,
    {
        let c = s.get_char(t);
        let ghost taken = seg@.take(t as int);
        proof {
            assert(seg@.take(t + 1) =~= taken + seq![c]);
            lemma_encode_concat(taken, seq![c]);
            assert(seq![c].len() == 1);
            assert(seq![c][0] == c);
            assert(seq![c].drop_first() =~= Seq::<char>::empty());
            assert(encode_seg(Seq::<char>::empty()) == Seq::<char>::empty());
            if needs_escape(c) {
                assert(encode_seg(seq![c]) == escape_char(c) + encode_seg(
                    seq![c].drop_first(),
                ));
                assert(encode_seg(seq![c]) =~= escape_char(c));
            } else {
                assert(encode_seg(seq![c]) == seq![c] + encode_seg(seq![c].drop_first()));
                assert(encode_seg(seq![c]) =~= seq![c]);
            }
        }
        if c == '%' || c == '/' || (c as u32) < 0x20 || (c as u32) == 0x7f {
            let code: u8 = c as u8;
            proof {
                assert((c as u32) < 0x80);
                assert(code as int == c as int);
            }
            out.push('%');
            out.push(hex_digit(code / 16));
            out.push(hex_digit(code % 16));
            proof {
                assert((code / 16) as int == (c as int) / 16);
                assert((code % 16) as int == (c as int) % 16);
                assert(out@ =~= base + encode_seg(taken) + escape_char(c));
                assert(base + encode_seg(taken) + escape_char(c) =~= base + (encode_seg(taken)
                    + escape_char(c)));
            }
        } else {
            out.push(c);
            proof {
                assert(out@ =~= base + (encode_seg(taken) + seq![c]));
            }
        }
        t = t + 1;
    }
    proof {
        assert(seg@.take(n as int) =~= seg@);
    }
}

/// The upper-case hexadecimal digit of a value below sixteen.
fn hex_digit(v: u8) -> (r: char)
    requires
        v < 16,
    ensures
        r == hex_digit_char(v as int),
{
    if v < 10 {
        (('0' as u8) + v) as char
    } else {
        (('A' as u8) + (v - 10)) as char
    }
}

/// The rendering of the one-dot segment, concretely.
proof fn lemma_render_dot()
    ensures
        render_seg(seq!['.']) == seq!['%', '2', 'E'],
{
    let s = seq!['.'];
    assert(s.drop_first() =~= Seq::<char>::empty());
    assert(encode_all(s) == escape_char('.') + encode_all(s.drop_first()));
    assert(escape_char('.') + Seq::<char>::empty() =~= escape_char('.'));
    assert(('.' as int) / 16 == 2 && ('.' as int) % 16 == 14);
    assert(hex_digit_char(2) == '2');
    assert(hex_digit_char(14) == 'E');
    assert(escape_char('.') =~= seq!['%', '2', 'E']);
}

/// The rendering of the two-dot segment, concretely.
proof fn lemma_render_dot_dot()
    ensures
        render_seg(seq!['.', '.']) == seq!['%', '2', 'E', '%', '2', 'E'],
{
    let s = seq!['.', '.'];
    assert(s.drop_first() =~= seq!['.']);
    assert(seq!['.'].drop_first() =~= Seq::<char>::empty());
    assert(encode_all(seq!['.']) == escape_char('.') + encode_all(Seq::<char>::empty()));
    assert(escape_char('.') + Seq::<char>::empty() =~= escape_char('.'));
    assert(encode_all(s) == escape_char('.') + encode_all(s.drop_first()));
    assert(('.' as int) / 16 == 2 && ('.' as int) % 16 == 14);
    assert(hex_digit_char(2) == '2');
    assert(hex_digit_char(14) == 'E');
    assert(escape_char('.') =~= seq!['%', '2', 'E']);
    assert(escape_char('.') + escape_char('.') =~= seq!['%', '2', 'E', '%', '2', 'E']);
}

/// `p` is a (segment-wise) prefix of `s`.
pub open spec fn is_path_prefix(p: Seq<Seq<char>>, s: Seq<Seq<char>>) -> bool {
    p.len() <= s.len() && s.take(p.len() as int) == p
}

/// Strict lexicographic order on character sequences.
pub open spec fn lex_lt(a: Seq<char>, b: Seq<char>) -> bool
    decreases a.len(),
{
    if a.len() == 0 {
        b.len() > 0
    } else if b.len() == 0 {
        false
    } else if a[0] != b[0] {
        a[0] < b[0]
    } else {
        lex_lt(a.drop_first(), b.drop_first())
    }
}

/// Lexicographic order, allowing equality.
pub open spec fn lex_le(a: Seq<char>, b: Seq<char>) -> bool {
    a == b || lex_lt(a, b)
}

/// The lexicographic order is irreflexive.
pub proof fn lemma_lex_irrefl(a: Seq<char>)
    ensures
        !lex_lt(a, a),
    decreases a.len(),
{
    if a.len() > 0 {
        lemma_lex_irrefl(a.drop_first());
    }
}

/// Two distinct sequences compare one way or the other.
pub proof fn lemma_lex_total(a: Seq<char>, b: Seq<char>)
    requires
        a != b,
    ensures
        lex_lt(a, b) || lex_lt(b, a),
    decreases a.len(),
{
    if a.len() == 0 {
        if b.len() == 0 {
            assert(a =~= b);
        }
        assert(b.len() > 0);
    } else if b.len() == 0 {
    } else if a[0] != b[0] {
    } else {
        assert(a.drop_first() != b.drop_first()) by {
            if a.drop_first() == b.drop_first() {
                assert(a =~= seq![a[0]] + a.drop_first());
                assert(b =~= seq![b[0]] + b.drop_first());
            }
        }
        lemma_lex_total(a.drop_first(), b.drop_first());
    }
}

/// The lexicographic order is transitive.
pub proof fn lemma_lex_trans(a: Seq<char>, b: Seq<char>, c: Seq<char>)
    requires
        lex_lt(a, b),
        lex_lt(b, c),
    ensures
        lex_lt(a, c),
    decreases a.len(),
{
    if a.len() == 0 {
        assert(b.len() > 0);
        assert(c.len() > 0);
    } else {
        assert(b.len() > 0);
        assert(c.len() > 0);
        if a[0] == b[0] {
            if b[0] == c[0] {
                lemma_lex_trans(a.drop_first(), b.drop_first(), c.drop_first());
            }
        }
    }
}

/// Compare two character vectors lexicographically.
pub fn lex_lt_chars(a: &Vec<char>, b: &Vec<char>) -> (r: bool)
    ensures
        r == lex_lt(a@, b@),
{
    let mut i: usize = 0;
    proof {
        assert(a@.skip(0) =~= a@);
        assert(b@.skip(0) =~= b@);
    }
    loop
        invariant
            i <= a@.len(),
            i <= b@.len(),
            lex_lt(a@, b@) == lex_lt(a@.skip(i as int), b@.skip(i as int)),
        decreases a@.len() - i,
    {
        let ghost ra = a@.skip(i as int);
        let ghost rb = b@.skip(i as int);
        if i == a.len() {
            proof {
                assert(ra.len() == 0);
            }
            return i < b.len();
        }
        if i == b.len() {
            proof {
                assert(rb.len() == 0 && ra.len() > 0);
            }
            return false;
        }
        let ca = a[i];
        let cb = b[i];
        proof {
            assert(ra[0] == ca && rb[0] == cb);
        }
        if ca != cb {
            return ca < cb;
        }
        proof {
            assert(ra.drop_first() =~= a@.skip(i + 1));
            assert(rb.drop_first() =~= b@.skip(i + 1));
        }
        i = i + 1;
    }
}

impl Path {
    /// Append another path's segments after this path's.
    pub fn join(&self, other: &Path) -> (r: Path)
        ensures
            r@ == self@ + other@,
    {
        let mut segments: Vec<String> = Vec::new();
        let mut i: usize = 0;
        while i < self.segments.len()
            invariant
                i <= self.segments@.len(),
                segments@.len() == i,
                forall|j: int| 0 <= j < i ==> segments@[j]@ == self.segments@[j]@,
            decreases self.segments@.len() - i,
        {
            segments.push(self.segments[i].clone());
            i = i + 1;
        }
        let n0 = self.segments.len();
        let mut k: usize = 0;
        while k < other.segments.len()
            invariant
                k <= other.segments@.len(),
                n0 == self.segments@.len(),
                segments@.len() == n0 + k,
                forall|j: int| 0 <= j < n0 ==> segments@[j]@ == self.segments@[j]@,
                forall|j: int| 0 <= j < k ==> segments@[n0 + j]@ == other.segments@[j]@,
            decreases other.segments@.len() - k,
        {
            segments.push(other.segments[k].clone());
            k = k + 1;
        }
        let r = Path { segments };
        proof {
            assert(r@ =~= self@ + other@);
        }
        r
    }

    /// Whether this path starts with the given prefix, segment by segment.
    pub fn has_prefix(&self, prefix: &Path) -> (r: bool)
        ensures
            r == is_path_prefix(prefix@, self@),
    {
        if prefix.segments.len() > self.segments.len() {
            proof {
                assert(prefix@.len() == prefix.segments@.len());
                assert(self@.len() == self.segments@.len());
            }
            return false;
        }
        let n = prefix.segments.len();
        let mut i: usize = 0;
        while i < n
            invariant
                i <= n == prefix.segments@.len(),
                n <= self.segments@.len(),
                forall|j: int| 0 <= j < i ==> self.segments@[j]@ == prefix.segments@[j]@,
            decreases n - i,
        {
            if !(self.segments[i] == prefix.segments[i]) {
                proof {
                    assert(self@[i as int] != prefix@[i as int]);
                    if is_path_prefix(prefix@, self@) {
                        assert(self@.take(prefix@.len() as int)[i as int] == self@[i as int]);
                    }
                }
                return false;
            }
            i = i + 1;
        }
        proof {
            assert(self@.take(prefix@.len() as int) =~= prefix@);
        }
        true
    }

    /// The path formed by the first `k` segments.
    pub fn prefix_to(&self, k: usize) -> (r: Path)
        requires
            k <= self@.len(),
        ensures
            r@ == self@.take(k as int),
    {
        let mut segments: Vec<String> = Vec::new();
        let mut i: usize = 0;
        while i < k
            invariant
                i <= k <= self.segments@.len(),
                segments@.len() == i,
                forall|j: int| 0 <= j < i ==> segments@[j]@ == self.segments@[j]@,
            decreases k - i,
        {
            segments.push(self.segments[i].clone());
            i = i + 1;
        }
        let r = Path { segments };
        proof {
            assert(r@ =~= self@.take(k as int));
        }
        r
    }

    /// The path formed by the segments from index `k` on.
    pub fn suffix_from(&self, k: usize) -> (r: Path)
        requires
            k <= self@.len(),
        ensures
            r@ == self@.skip(k as int),
    {
        let mut segments: Vec<String> = Vec::new();
        let mut i: usize = k;
        while i < self.segments.len()
            invariant
                k <= i <= self.segments@.len(),
                segments@.len() == i - k,
                forall|j: int| 0 <= j < i - k ==> segments@[j]@ == self.segments@[k + j]@,
            decreases self.segments@.len() - i,
        {
            segments.push(self.segments[i].clone());
            i = i + 1;
        }
        let r = Path { segments };
        proof {
            assert(r@ =~= self@.skip(k as int));
        }
        r
    }
}

/// Whether a character is a hexadecimal digit.
fn is_hex_digit(c: char) -> (r: bool)
    ensures
        r == is_hex_digit_char(c),
{
    ('0' <= c && c <= '9') || ('A' <= c && c <= 'F') || ('a' <= c && c <= 'f')
}

/// The value of a hexadecimal digit.
fn hex_digit_value(c: char) -> (r: u8)
    requires
        is_hex_digit_char(c),
    ensures
        r as int == hex_value(c),
        r < 16,
{
    if '0' <= c && c <= '9' {
        (c as u8) - ('0' as u8)
    } else if 'A' <= c && c <= 'F' {
        (c as u8) - ('A' as u8) + 10
    } else {
        (c as u8) - ('a' as u8) + 10
    }
}

/// Whether the raw segment `chars[start..end]` passes the pre-decode checks.
fn raw_seg_check(chars: &Vec<char>, start: usize, end: usize) -> (r: bool)
    requires
        start <= end <= chars@.len(),
    ensures
        r == raw_seg_ok(chars@.subrange(start as int, end as int)),
{
    let ghost raw = chars@.subrange(start as int, end as int);
    if end == start {
        return false;
    }
    if end - start == 1 && chars[start] == '.' {
        proof {
            assert(raw =~= seq!['.']);
        }
        return false;
    }
    if end - start == 2 && chars[start] == '.' && chars[start + 1] == '.' {
        proof {
            assert(raw =~= seq!['.', '.']);
        }
        return false;
    }
    proof {
        assert(raw.len() == end - start);
        if raw == seq!['.'] {
            assert(raw.len() == 1);
            assert(raw[0] == '.');
            assert(raw[0] == chars@[start as int]);
            assert(false);
        }
        if raw == seq!['.', '.'] {
            assert(raw.len() == 2);
            assert(raw[0] == '.' && raw[1] == '.');
            assert(raw[0] == chars@[start as int]);
            assert(raw[1] == chars@[start as int + 1]);
            assert(false);
        }
    }
    let mut i: usize = start;
    while i < end
        invariant
            start <= i <= end <= chars@.len(),
            raw == chars@.subrange(start as int, end as int),
            forall|j: int| start <= j < i ==> !is_control_char(#[trigger] chars@[j]),
        decreases end - i,
    {
        let c = chars[i];
        if (c as u32) < 0x20 || (c as u32) == 0x7f {
            proof {
                assert(raw.len() == end - start);
                assert(0 <= i - start < raw.len());
                assert(raw[i - start] == chars@[start + (i - start)]);
                assert(is_control_char(raw[i - start]));
            }
            return false;
        }
        i = i + 1;
    }
    proof {
        assert forall|j: int| 0 <= j < raw.len() implies !is_control_char(#[trigger] raw[j]) by {
            assert(raw[j] == chars@[start + j]);
        }
    }
    true
}

/// Percent-decode the raw segment `chars[start..end]`.
fn decode_segment(chars: &Vec<char>, start: usize, end: usize) -> (r: Option<String>)
    requires
        start <= end <= chars@.len(),
    ensures
        match r {
            Some(d) => decode_seg(chars@.subrange(start as int, end as int)) == Some(d@),
            None => decode_seg(chars@.subrange(start as int, end as int)) is None,
        },
{
    let ghost whole = chars@.subrange(start as int, end as int);
    let mut out: Vec<char> = Vec::new();
    let mut i: usize = start;
    while i < end
        invariant
            start <= i <= end <= chars@.len(),
            whole == chars@.subrange(start as int, end as int),
            decode_seg(whole) == match decode_seg(
                chars@.subrange(i as int, end as int),
            ) {
                Some(rest) => Some(out@ + rest),
                None => None::<Seq<char>>,
            },
        decreases end - i,
    {
        let ghost rem = chars@.subrange(i as int, end as int);
        let c = chars[i];
        proof {
            assert(rem[0] == c);
            assert(rem.len() == end - i);
        }
        if c == '%' {
            if end - i < 3 {
                proof {
                    assert(decode_seg(rem) is None);
                }
                return None;
            }
            let h1 = chars[i + 1];
            let h2 = chars[i + 2];
            proof {
                assert(rem[1] == h1);
                assert(rem[2] == h2);
            }
            if !is_hex_digit(h1) || !is_hex_digit(h2) {
                proof {
                    assert(decode_seg(rem) is None);
                }
                return None;
            }
            let v: u8 = 16 * hex_digit_value(h1) + hex_digit_value(h2);
            proof {
                assert(v as int == 16 * hex_value(rem[1]) + hex_value(rem[2]));
            }
            let d = v as char;
            proof {
                assert(d == ((16 * hex_value(rem[1]) + hex_value(rem[2])) as char));
            }
            if d == '/' {
                proof {
                    assert(decode_seg(rem) is None);
                }
                return None;
            }
            out.push(d);
            proof {
                assert(rem.skip(3) =~= chars@.subrange(i + 3, end as int));
                let prev = out@.drop_last();
                assert(prev =~= out@.subrange(0, out@.len() - 1));
                if decode_seg(chars@.subrange(i + 3, end as int)) is Some {
                    let rest = decode_seg(chars@.subrange(i + 3, end as int))->Some_0;
                    assert(decode_seg(rem) == Some(seq![d] + rest));
                    assert(prev + (seq![d] + rest) =~= out@ + rest);
                } else {
                    assert(decode_seg(rem) is None);
                }
            }
            i = i + 3;
        } else {
            out.push(c);
            proof {
                assert(rem.drop_first() =~= chars@.subrange(i + 1, end as int));
                let prev = out@.drop_last();
                assert(prev =~= out@.subrange(0, out@.len() - 1));
                if decode_seg(chars@.subrange(i + 1, end as int)) is Some {
                    let rest = decode_seg(chars@.subrange(i + 1, end as int))->Some_0;
                    assert(decode_seg(rem) == Some(seq![c] + rest));
                    assert(prev + (seq![c] + rest) =~= out@ + rest);
                } else {
                    assert(decode_seg(rem) is None);
                }
            }
            i = i + 1;
        }
    }
    proof {
        assert(chars@.subrange(i as int, end as int).len() == 0);
        assert(decode_seg(chars@.subrange(i as int, end as int)) == Some(Seq::<char>::empty()));
        assert(out@ + Seq::<char>::empty() =~= out@);
    }
    Some(chars_to_string(&out))
}

} // verus!

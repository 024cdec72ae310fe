//! Character-level views of UTF-8 text: whitespace, trimming, searching and slicing
//! a `&str` at character positions, proved against the character sequence `s@`.
use vstd::prelude::*;
use vstd::string::StringSliceAdditionalSpecFns;
use vstd::utf8::*;

verus! {

broadcast use vstd::utf8::group_utf8_lib;

// ---------------------------------------------------------------------------
// Specifications
// ---------------------------------------------------------------------------

/// Unicode `White_Space` code points (the property `char::is_whitespace` and `str::trim` use).
pub open spec fn is_white_space_code(v: u32) -> bool {
    ||| 0x09 <= v <= 0x0D
    ||| v == 0x20
    ||| v == 0x85
    ||| v == 0xA0
    ||| v == 0x1680
    ||| 0x2000 <= v <= 0x200A
    ||| v == 0x2028
    ||| v == 0x2029
    ||| v == 0x202F
    ||| v == 0x205F
    ||| v == 0x3000
}

pub open spec fn is_white_space(c: char) -> bool {
    is_white_space_code(c as u32)
}

/// `s` without its leading whitespace.
pub open spec fn trim_start(s: Seq<char>) -> Seq<char>
    decreases s.len(),
{
    if s.len() > 0 && is_white_space(s[0]) {
        trim_start(s.drop_first())
    } else {
        s
    }
}

/// `s` without its trailing whitespace.
pub open spec fn trim_end(s: Seq<char>) -> Seq<char>
    decreases s.len(),
{
    if s.len() > 0 && is_white_space(s.last()) {
        trim_end(s.drop_last())
    } else {
        s
    }
}

/// `s` without leading and trailing whitespace.
pub open spec fn trim(s: Seq<char>) -> Seq<char> {
    trim_end(trim_start(s))
}

/// Index of the first occurrence of `ch` in `s`.
pub open spec fn find_first(s: Seq<char>, ch: char) -> Option<int>
    decreases s.len(),
{
    if s.len() == 0 {
        None
    } else if s[0] == ch {
        Some(0)
    } else {
        match find_first(s.drop_first(), ch) {
            Some(i) => Some(i + 1),
            None => None,
        }
    }
}

/// Byte length of the UTF-8 encoding of the first `j` characters of `s`.
pub open spec fn byte_offset(s: Seq<char>, j: int) -> int {
    encode_utf8(s.take(j)).len() as int
}

// ---------------------------------------------------------------------------
// Lemmas
// ---------------------------------------------------------------------------

/// `find_first` finds the first occurrence, and only it.
pub proof fn lemma_find_first(s: Seq<char>, ch: char)
    ensures
        match find_first(s, ch) {
            Some(i) => 0 <= i < s.len() && s[i] == ch && forall|k: int| 0 <= k < i ==> s[k] != ch,
            None => forall|k: int| 0 <= k < s.len() ==> s[k] != ch,
        },
    decreases s.len(),
{
    if s.len() > 0 && s[0] != ch {
        lemma_find_first(s.drop_first(), ch);
        assert forall|k: int| 1 <= k < s.len() implies s[k] == s.drop_first()[k - 1] by {}
    }
}

proof fn lemma_encode_utf8_single(c: char)
    ensures
        encode_utf8(seq![c]) == encode_scalar(c as u32),
{
    assert(seq![c].drop_first() =~= Seq::<char>::empty());
    assert(encode_utf8(Seq::<char>::empty()) =~= Seq::<u8>::empty());
    assert(encode_scalar(c as u32) + Seq::<u8>::empty() =~= encode_scalar(c as u32));
}

/// Encoding distributes over concatenation.
pub proof fn lemma_encode_utf8_concat(a: Seq<char>, b: Seq<char>)
    ensures
        encode_utf8(a + b) == encode_utf8(a) + encode_utf8(b),
    decreases a.len(),
{
    if a.len() == 0 {
        assert(a + b =~= b);
        assert(encode_utf8(a) =~= Seq::<u8>::empty());
        assert(encode_utf8(a) + encode_utf8(b) =~= encode_utf8(b));
    } else {
        lemma_encode_utf8_concat(a.drop_first(), b);
        assert((a + b).drop_first() =~= a.drop_first() + b);
        assert((a + b)[0] == a[0]);
        assert(encode_utf8(a + b) =~= encode_utf8(a) + encode_utf8(b));
    }
}

proof fn lemma_encode_scalar_len(c: char)
    ensures
        1 <= encode_scalar(c as u32).len() <= 4,
{
}

/// What lies at byte offset `byte_offset(c, j)` of the encoding of `c`.
pub proof fn lemma_char_at(c: Seq<char>, j: int)
    requires
        0 <= j < c.len(),
    ensures
        ({
            let bytes = encode_utf8(c);
            let k = byte_offset(c, j);
            let rest = bytes.subrange(k, bytes.len() as int);
            &&& 0 <= k < bytes.len()
            &&& rest == encode_utf8(c.skip(j))
            &&& valid_first_scalar(rest)
            &&& decode_first_scalar(rest) == c[j] as u32
            &&& length_of_first_scalar(rest) == encode_scalar(c[j] as u32).len()
            &&& byte_offset(c, j + 1) == k + encode_scalar(c[j] as u32).len()
        }),
{
    let bytes = encode_utf8(c);
    assert(c.take(j) + c.skip(j) =~= c);
    lemma_encode_utf8_concat(c.take(j), c.skip(j));
    assert(c.take(j + 1) =~= c.take(j) + seq![c[j]]);
    lemma_encode_utf8_concat(c.take(j), seq![c[j]]);
    lemma_encode_utf8_single(c[j]);
    encode_utf8_first_scalar(c.skip(j));
    lemma_encode_scalar_len(c[j]);
    assert(c.skip(j)[0] == c[j]);
    let k = byte_offset(c, j);
    assert(bytes.subrange(k, bytes.len() as int) =~= encode_utf8(c.skip(j)));
    assert(c.skip(j) =~= seq![c[j]] + c.skip(j + 1));
    lemma_encode_utf8_concat(seq![c[j]], c.skip(j + 1));
}

/// Offsets of all characters lie inside the encoding; the end offset is its length.
pub proof fn lemma_offset_bounds(c: Seq<char>, j: int)
    requires
        0 <= j <= c.len(),
    ensures
        0 <= byte_offset(c, j) <= encode_utf8(c).len(),
        j < c.len() ==> byte_offset(c, j) < encode_utf8(c).len(),
        j == c.len() ==> byte_offset(c, j) == encode_utf8(c).len(),
        j == 0 ==> byte_offset(c, j) == 0,
{
    if j < c.len() {
        lemma_char_at(c, j);
    } else {
        assert(c.take(j) =~= c);
    }
    if j == 0 {
        assert(c.take(0) =~= Seq::<char>::empty());
        assert(encode_utf8(c.take(0)) =~= Seq::<u8>::empty());
    }
}

/// Every character offset is a character boundary of the encoding.
proof fn lemma_char_boundary(c: Seq<char>, j: int)
    requires
        0 <= j <= c.len(),
    ensures
        is_char_boundary(encode_utf8(c), byte_offset(c, j)),
    decreases c.len(),
{
    let bytes = encode_utf8(c);
    encode_utf8_valid_utf8(c);
    lemma_offset_bounds(c, j);
    if j > 0 {
        encode_utf8_first_scalar(c);
        lemma_encode_scalar_len(c[0]);
        assert(pop_first_scalar(bytes) =~= encode_utf8(c.drop_first()));
        lemma_char_boundary(c.drop_first(), j - 1);
        assert(c.take(j) =~= seq![c[0]] + c.drop_first().take(j - 1));
        lemma_encode_utf8_concat(seq![c[0]], c.drop_first().take(j - 1));
        lemma_encode_utf8_single(c[0]);
        assert(byte_offset(c, j) - length_of_first_scalar(bytes) == byte_offset(c.drop_first(), j - 1));
    }
}

/// The last byte of an encoding is the carriage return byte exactly when the last character is one.
proof fn lemma_last_byte_cr(c: Seq<char>)
    requires
        c.len() > 0,
    ensures
        ({
            let bytes = encode_utf8(c);
            &&& bytes.len() > 0
            &&& (bytes.last() == 0x0Du8 <==> c.last() == '\r')
            &&& (c.last() == '\r' ==> byte_offset(c, c.len() - 1) == bytes.len() - 1)
        }),
{
    let n = c.len() - 1;
    let bytes = encode_utf8(c);
    lemma_char_at(c, n);
    lemma_offset_bounds(c, c.len() as int);
    let x = c.last() as u32;
    let e = encode_scalar(x);
    let k = byte_offset(c, n);
    assert(bytes.subrange(k, bytes.len() as int) == encode_utf8(c.skip(n)));
    assert(c.skip(n) =~= seq![c.last()]);
    lemma_encode_utf8_single(c.last());
    assert(bytes.subrange(k, bytes.len() as int) == e);
    assert(byte_offset(c, n + 1) == bytes.len());
    assert(bytes.last() == e.last()) by {
        assert(e.last() == bytes.subrange(k, bytes.len() as int)[e.len() - 1]);
    }
    vstd::utf8::char_u32_cast(c.last(), x);
    if has_width_1_encoding(x) {
        assert(e.last() == (x & 0x7F) as u8);
        assert(((x & 0x7F) as u8 == 0x0Du8) <==> (x == 0x0D)) by (bit_vector)
            requires
                x <= 0x7F,
        ;
        assert((c.last() == '\r') <==> (x == 0x0D));
    } else {
        assert(e.last() == (0x80u8 | (x & 0x3F) as u8));
        assert((0x80u8 | (x & 0x3F) as u8) != 0x0Du8) by (bit_vector);
        assert(x != 0x0D);
        assert(c.last() != '\r');
    }
}

/// Every character of `w` is whitespace.
pub open spec fn all_white_space(w: Seq<char>) -> bool {
    forall|i: int| 0 <= i < w.len() ==> is_white_space(#[trigger] w[i])
}

/// No character of `s` is `ch`.
pub open spec fn lacks_char(s: Seq<char>, ch: char) -> bool {
    forall|i: int| 0 <= i < s.len() ==> #[trigger] s[i] != ch
}

/// Leading whitespace does not survive `trim_start`.
pub proof fn lemma_trim_start_skips_white_space(w: Seq<char>, x: Seq<char>)
    requires
        all_white_space(w),
    ensures
        trim_start(w + x) == trim_start(x),
    decreases w.len(),
{
    if w.len() == 0 {
        assert(w + x =~= x);
    } else {
        assert((w + x)[0] == w[0]);
        assert((w + x).drop_first() =~= w.drop_first() + x);
        assert(all_white_space(w.drop_first())) by {
            assert forall|i: int| 0 <= i < w.drop_first().len() implies is_white_space(
                #[trigger] w.drop_first()[i],
            ) by {
                assert(w.drop_first()[i] == w[i + 1]);
            }
        }
        lemma_trim_start_skips_white_space(w.drop_first(), x);
    }
}

/// Trailing whitespace does not survive `trim_end`.
pub proof fn lemma_trim_end_skips_white_space(x: Seq<char>, w: Seq<char>)
    requires
        all_white_space(w),
    ensures
        trim_end(x + w) == trim_end(x),
    decreases w.len(),
{
    if w.len() == 0 {
        assert(x + w =~= x);
    } else {
        assert((x + w).last() == w.last());
        assert((x + w).drop_last() =~= x + w.drop_last());
        assert(all_white_space(w.drop_last())) by {
            assert forall|i: int| 0 <= i < w.drop_last().len() implies is_white_space(
                #[trigger] w.drop_last()[i],
            ) by {
                assert(w.drop_last()[i] == w[i]);
            }
        }
        lemma_trim_end_skips_white_space(x, w.drop_last());
    }
}

/// What `trim_start` keeps of `x` is kept in front of anything appended.
pub proof fn lemma_trim_start_append(x: Seq<char>, y: Seq<char>)
    requires
        trim_start(x).len() > 0,
    ensures
        trim_start(x + y) == trim_start(x) + y,
    decreases x.len(),
{
    if x.len() > 0 {
        assert((x + y)[0] == x[0]);
        if is_white_space(x[0]) {
            assert((x + y).drop_first() =~= x.drop_first() + y);
            lemma_trim_start_append(x.drop_first(), y);
        }
    }
}

/// What `trim_end` keeps of `y` is kept behind anything prepended.
pub proof fn lemma_trim_end_prepend(x: Seq<char>, y: Seq<char>)
    requires
        trim_end(y).len() > 0,
    ensures
        trim_end(x + y) == x + trim_end(y),
    decreases y.len(),
{
    if y.len() > 0 {
        assert((x + y).last() == y.last());
        if is_white_space(y.last()) {
            assert((x + y).drop_last() =~= x + y.drop_last());
            lemma_trim_end_prepend(x, y.drop_last());
        }
    }
}

/// Only whitespace trims away to nothing.
pub proof fn lemma_trim_end_empty(y: Seq<char>)
    requires
        trim_end(y).len() == 0,
    ensures
        all_white_space(y),
    decreases y.len(),
{
    if y.len() > 0 {
        lemma_trim_end_empty(y.drop_last());
        assert forall|i: int| 0 <= i < y.len() implies is_white_space(#[trigger] y[i]) by {
            if i < y.len() - 1 {
                assert(y.drop_last()[i] == y[i]);
            }
        }
    }
}

/// Trimming the two ends can be done in either order.
pub proof fn lemma_trim_commutes(m: Seq<char>)
    ensures
        trim_start(trim_end(m)) == trim_end(trim_start(m)),
    decreases m.len(),
{
    if m.len() > 0 {
        let y = m.drop_first();
        let head = seq![m[0]];
        assert(m =~= head + y);
        lemma_trim_commutes(y);
        if trim_end(y).len() > 0 {
            lemma_trim_end_prepend(head, y);
            if is_white_space(m[0]) {
                lemma_trim_start_skips_white_space(head, trim_end(y));
            } else {
                assert((head + trim_end(y))[0] == m[0]);
            }
        } else {
            lemma_trim_end_empty(y);
            lemma_trim_end_skips_white_space(head, y);
            if is_white_space(m[0]) {
                assert(trim_end(head) =~= trim_end(head.drop_last()));
                assert(head.drop_last() =~= Seq::<char>::empty());
                lemma_trim_start_skips_white_space(y, Seq::<char>::empty());
                assert(y + Seq::<char>::empty() =~= y);
            } else {
                assert(trim_end(head) == head);
            }
        }
    }
}

/// Whitespace around a text does not change its trimmed form.
pub proof fn lemma_trim_ignores_white_space(w1: Seq<char>, x: Seq<char>, w2: Seq<char>)
    requires
        all_white_space(w1),
        all_white_space(w2),
    ensures
        trim(w1 + x + w2) == trim(x),
{
    assert(w1 + x + w2 =~= w1 + (x + w2));
    lemma_trim_start_skips_white_space(w1, x + w2);
    if trim_start(x).len() > 0 {
        lemma_trim_start_append(x, w2);
        lemma_trim_end_skips_white_space(trim_start(x), w2);
    } else {
        lemma_trim_start_to_nothing(x, w2);
    }
}

/// A text that trims to nothing followed by whitespace also trims to nothing.
proof fn lemma_trim_start_to_nothing(x: Seq<char>, w: Seq<char>)
    requires
        trim_start(x).len() == 0,
        all_white_space(w),
    ensures
        trim_start(x + w).len() == 0,
    decreases x.len(),
{
    if x.len() == 0 {
        assert(x + w =~= w);
        lemma_trim_start_skips_white_space(w, Seq::<char>::empty());
        assert(w + Seq::<char>::empty() =~= w);
    } else {
        assert((x + w)[0] == x[0]);
        assert((x + w).drop_first() =~= x.drop_first() + w);
        lemma_trim_start_to_nothing(x.drop_first(), w);
    }
}

/// What `trim_start` keeps is a suffix: it starts with a non-whitespace character and ends
/// as the text does.
pub proof fn lemma_trim_start_shape(x: Seq<char>)
    ensures
        trim_start(x).len() <= x.len(),
        trim_start(x).len() > 0 ==> !is_white_space(trim_start(x)[0]) && trim_start(x).last()
            == x.last(),
    decreases x.len(),
{
    if x.len() > 0 && is_white_space(x[0]) {
        lemma_trim_start_shape(x.drop_first());
    }
}

/// What `trim_end` keeps ends with a non-whitespace character.
pub proof fn lemma_trim_end_shape(x: Seq<char>)
    ensures
        trim_end(x).len() <= x.len(),
        trim_end(x).len() > 0 ==> !is_white_space(trim_end(x).last()),
    decreases x.len(),
{
    if x.len() > 0 && is_white_space(x.last()) {
        lemma_trim_end_shape(x.drop_last());
    }
}

/// Searching past a prefix that lacks `ch`.
pub proof fn lemma_find_first_after(x: Seq<char>, y: Seq<char>, ch: char)
    requires
        lacks_char(x, ch),
    ensures
        find_first(x + y, ch) == match find_first(y, ch) {
            Some(i) => Some(i + x.len()),
            None => None,
        },
    decreases x.len(),
{
    if x.len() == 0 {
        assert(x + y =~= y);
    } else {
        assert((x + y)[0] == x[0]);
        assert((x + y).drop_first() =~= x.drop_first() + y);
        assert(lacks_char(x.drop_first(), ch)) by {
            assert forall|i: int| 0 <= i < x.drop_first().len() implies #[trigger] x.drop_first()[i]
                != ch by {
                assert(x.drop_first()[i] == x[i + 1]);
            }
        }
        lemma_find_first_after(x.drop_first(), y, ch);
    }
}

// ---------------------------------------------------------------------------
// Executable helpers
// ---------------------------------------------------------------------------

/// `true` for the Unicode `White_Space` code points.
pub(crate) fn is_white_space_code_exec(v: u32) -> (r: bool)
    ensures
        r == is_white_space_code(v),
{
    (0x09 <= v && v <= 0x0D) || v == 0x20 || v == 0x85 || v == 0xA0 || v == 0x1680 || (0x2000
        <= v && v <= 0x200A) || v == 0x2028 || v == 0x2029 || v == 0x202F || v == 0x205F || v
        == 0x3000
}

/// Decodes the character that starts at byte `k`, the offset of character `j`;
/// returns its code point and the offset of the next character.
fn decode_char(bytes: &[u8], k: usize, Ghost(c): Ghost<Seq<char>>, Ghost(j): Ghost<int>) -> (r: (
    u32,
    usize,
))
    requires
        bytes@ == encode_utf8(c),
        0 <= j < c.len(),
        k == byte_offset(c, j),
    ensures
        r.0 == c[j] as u32,
        r.1 == byte_offset(c, j + 1),
        k < r.1 <= bytes@.len(),
{
    proof {
        lemma_char_at(c, j);
        lemma_offset_bounds(c, j + 1);
    }
    let ghost rest = bytes@.subrange(k as int, bytes@.len() as int);
    let b0 = bytes[k];
    assert(b0 == rest[0]);
    if b0 <= 0x7f {
        ((b0 & 0x7F) as u32, k + 1)
    } else if 0xc0 <= b0 && b0 <= 0xdf {
        assert(rest.len() >= 2);
        let b1 = bytes[k + 1];
        assert(b1 == rest[1]);
        ((((b0 & 0x1F) as u32) << 6) | ((b1 & 0x3F) as u32), k + 2)
    } else if 0xe0 <= b0 && b0 <= 0xef {
        assert(rest.len() >= 3);
        let b1 = bytes[k + 1];
        let b2 = bytes[k + 2];
        assert(b1 == rest[1] && b2 == rest[2]);
        (
            (((b0 & 0x0F) as u32) << 12) | (((b1 & 0x3F) as u32) << 6) | ((b2 & 0x3F) as u32),
            k + 3,
        )
    } else {
        assert(rest.len() >= 4);
        let b1 = bytes[k + 1];
        let b2 = bytes[k + 2];
        let b3 = bytes[k + 3];
        assert(b1 == rest[1] && b2 == rest[2] && b3 == rest[3]);
        (
            (((b0 & 0x07) as u32) << 18) | (((b1 & 0x3F) as u32) << 12) | (((b2 & 0x3F) as u32)
                << 6) | ((b3 & 0x3F) as u32),
            k + 4,
        )
    }
}

/// Splits `s` before its `j`-th character, which starts at byte `k`.
pub(crate) fn split_chars<'a>(s: &'a str, k: usize, Ghost(j): Ghost<int>) -> (r: (&'a str, &'a str))
    requires
        0 <= j <= s@.len(),
        k == byte_offset(s@, j),
    ensures
        r.0@ == s@.take(j),
        r.1@ == s@.skip(j),
{
    proof {
        lemma_char_boundary(s@, j);
        lemma_offset_bounds(s@, j);
        assert(s@.take(j) + s@.skip(j) =~= s@);
        lemma_encode_utf8_concat(s@.take(j), s@.skip(j));
    }
    let r = s.split_at(k);
    proof {
        assert(encode_utf8(r.0@) =~= encode_utf8(s@.take(j)));
        assert(encode_utf8(r.1@) =~= encode_utf8(s@.skip(j)));
        encode_utf8_decode_utf8(r.0@);
        encode_utf8_decode_utf8(s@.take(j));
        encode_utf8_decode_utf8(r.1@);
        encode_utf8_decode_utf8(s@.skip(j));
    }
    r
}

/// `s` without its leading whitespace (`str::trim_start`).
pub(crate) fn trim_start_str<'a>(s: &'a str) -> (r: &'a str)
    ensures
        r@ == trim_start(s@),
{
    let bytes = s.as_bytes();
    let ghost c = s@;
    let mut k: usize = 0;
    let ghost mut j: int = 0;
    proof {
        lemma_offset_bounds(c, 0);
        assert(c.skip(0) =~= c);
        if c.len() == 0 {
            assert(c.skip(0) =~= Seq::<char>::empty());
        }
    }
    while k < bytes.len()
        invariant_except_break
            bytes@ == encode_utf8(c),
            0 <= j <= c.len(),
            k == byte_offset(c, j),
            trim_start(c) == trim_start(c.skip(j)),
            k >= bytes@.len() ==> trim_start(c) == c.skip(j),
        ensures
            0 <= j <= c.len(),
            k == byte_offset(c, j),
            trim_start(c) == c.skip(j),
        decreases bytes.len() - k,
    {
        proof {
            lemma_offset_bounds(c, j);
        }
        let (cp, next) = decode_char(bytes, k, Ghost(c), Ghost(j));
        if !is_white_space_code_exec(cp) {
            assert(c.skip(j)[0] == c[j]);
            break;
        }
        proof {
            assert(c.skip(j)[0] == c[j]);
            assert(c.skip(j).drop_first() =~= c.skip(j + 1));
            j = j + 1;
        }
        k = next;
        proof {
            lemma_offset_bounds(c, j);
            if j == c.len() {
                assert(c.skip(j) =~= Seq::<char>::empty());
            }
        }
    }
    let (_, rest) = split_chars(s, k, Ghost(j));
    rest
}

/// `s` without its trailing whitespace (`str::trim_end`).
pub(crate) fn trim_end_str<'a>(s: &'a str) -> (r: &'a str)
    ensures
        r@ == trim_end(s@),
{
    let bytes = s.as_bytes();
    let ghost c = s@;
    let mut k: usize = 0;
    let mut end: usize = 0;
    let ghost mut j: int = 0;
    let ghost mut je: int = 0;
    proof {
        lemma_offset_bounds(c, 0);
        assert(c.take(0) =~= Seq::<char>::empty());
    }
    while k < bytes.len()
        invariant
            bytes@ == encode_utf8(c),
            0 <= je <= j <= c.len(),
            k == byte_offset(c, j),
            end == byte_offset(c, je),
            trim_end(c.take(j)) == c.take(je),
        decreases bytes.len() - k,
    {
        proof {
            lemma_offset_bounds(c, j);
        }
        let (cp, next) = decode_char(bytes, k, Ghost(c), Ghost(j));
        proof {
            assert(c.take(j + 1).last() == c[j]);
            assert(c.take(j + 1).drop_last() =~= c.take(j));
        }
        if !is_white_space_code_exec(cp) {
            end = next;
            proof {
                je = j + 1;
            }
        }
        k = next;
        proof {
            j = j + 1;
        }
    }
    proof {
        lemma_offset_bounds(c, j);
        assert(c.take(j) =~= c);
    }
    let (head, _) = split_chars(s, end, Ghost(je));
    head
}

/// `s` without leading and trailing whitespace (`str::trim`).
pub(crate) fn trim_str<'a>(s: &'a str) -> (r: &'a str)
    ensures
        r@ == trim(s@),
{
    trim_end_str(trim_start_str(s))
}

/// Finds the first occurrence of the ASCII character `ch`: its byte offset and character index.
pub(crate) fn find_ascii<'a>(s: &'a str, ch: char) -> (r: Option<(usize, Ghost<int>)>)
    requires
        (ch as u32) < 0x80,
    ensures
        match r {
            Some((k, j)) => find_first(s@, ch) == Some(j@) && k == byte_offset(s@, j@)
                && byte_offset(s@, j@ + 1) == k + 1 && k < encode_utf8(s@).len() <= usize::MAX,
            None => find_first(s@, ch) is None,
        },
{
    let bytes = s.as_bytes();
    let ghost c = s@;
    let target = ch as u32;
    let mut k: usize = 0;
    let ghost mut j: int = 0;
    proof {
        lemma_offset_bounds(c, 0);
        assert(c.skip(0) =~= c);
    }
    while k < bytes.len()
        invariant
            bytes@ == encode_utf8(c),
            0 <= j <= c.len(),
            k == byte_offset(c, j),
            target == ch as u32,
            (ch as u32) < 0x80,
            c == s@,
            find_first(c, ch) == (match find_first(c.skip(j), ch) {
                Some(i) => Some(i + j),
                None => None,
            }),
        decreases bytes.len() - k,
    {
        proof {
            lemma_offset_bounds(c, j);
        }
        let (cp, next) = decode_char(bytes, k, Ghost(c), Ghost(j));
        proof {
            assert(c.skip(j)[0] == c[j]);
            vstd::utf8::char_u32_cast(c[j], cp);
            vstd::utf8::char_u32_cast(ch, target);
        }
        if cp == target {
            proof {
                lemma_char_at(c, j);
                assert(c[j] == ch);
                assert(find_first(c.skip(j), ch) == Some(0int));
                assert(has_width_1_encoding(ch as u32));
                assert(encode_scalar(c[j] as u32).len() == 1);
            }
            return Some((k, Ghost(j)));
        }
        proof {
            assert(c.skip(j).drop_first() =~= c.skip(j + 1));
            j = j + 1;
        }
        k = next;
    }
    proof {
        lemma_offset_bounds(c, j);
        assert(c.skip(j) =~= Seq::<char>::empty());
    }
    None
}

/// `true` when `s` begins with the ASCII character `ch`.
pub(crate) fn starts_with_ascii(s: &str, ch: char) -> (r: bool)
    requires
        (ch as u32) < 0x80,
    ensures
        r == (s@.len() > 0 && s@[0] == ch),
        r ==> byte_offset(s@, 1) == 1,
{
    let bytes = s.as_bytes();
    proof {
        lemma_offset_bounds(s@, 0);
    }
    if bytes.len() == 0 {
        return false;
    }
    proof {
        if s@.len() == 0 {
            assert(encode_utf8(s@) =~= Seq::<u8>::empty());
        }
    }
    let (cp, _) = decode_char(bytes, 0, Ghost(s@), Ghost(0));
    proof {
        vstd::utf8::char_u32_cast(s@[0], cp);
        vstd::utf8::char_u32_cast(ch, ch as u32);
        lemma_char_at(s@, 0);
    }
    cp == ch as u32
}

/// Equality of the texts of two string slices.
pub(crate) fn str_eq(a: &str, b: &str) -> (r: bool)
    ensures
        r == (a@ == b@),
{
    let x = a.as_bytes();
    let y = b.as_bytes();
    proof {
        encode_utf8_decode_utf8(a@);
        encode_utf8_decode_utf8(b@);
    }
    if x.len() != y.len() {
        return false;
    }
    let mut i: usize = 0;
    while i < x.len()
        invariant
            x@ == encode_utf8(a@),
            y@ == encode_utf8(b@),
            x@.len() == y@.len(),
            0 <= i <= x@.len(),
            forall|t: int| 0 <= t < i ==> x@[t] == y@[t],
        decreases x@.len() - i,
    {
        if x[i] != y[i] {
            return false;
        }
        i = i + 1;
    }
    assert(x@ =~= y@);
    true
}

/// `line` without one trailing carriage return.
pub open spec fn strip_cr(line: Seq<char>) -> Seq<char> {
    if line.len() > 0 && line.last() == '\r' {
        line.drop_last()
    } else {
        line
    }
}

/// Drops one trailing carriage return.
pub(crate) fn strip_cr_str<'a>(s: &'a str) -> (r: &'a str)
    ensures
        r@ == strip_cr(s@),
{
    let bytes = s.as_bytes();
    if bytes.len() == 0 {
        return s;
    }
    proof {
        if s@.len() == 0 {
            assert(encode_utf8(s@) =~= Seq::<u8>::empty());
        }
        lemma_last_byte_cr(s@);
    }
    if bytes[bytes.len() - 1] == 0x0D {
        let (head, _) = split_chars(s, bytes.len() - 1, Ghost(s@.len() - 1));
        proof {
            assert(s@.take(s@.len() - 1) =~= s@.drop_last());
        }
        head
    } else {
        s
    }
}

} // verus!

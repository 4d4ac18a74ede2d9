//! The SVG-to-data-URI normalization pipeline.
//!
//! An SVG text is prepared for embedding in four steps, in this order: a
//! single leading byte-order mark is dropped, outer whitespace is trimmed,
//! every interior run of whitespace collapses to one ASCII space, and every
//! character that is not an ASCII letter or digit is percent-encoded byte by
//! byte (UTF-8, uppercase hex). The result is wrapped in
//! `data:image/svg+xml,`.

use vstd::prelude::*;
use vstd::string::StrSliceExecFns;
use vstd::string::StringExecFns;
use vstd::utf8::encode_scalar;
use vstd::utf8::char_is_scalar;

verus! {

/// True for the characters with Unicode's `White_Space` property: the set
/// that both `str::trim` and a Unicode-aware `\s` pattern treat as
/// whitespace.
pub open spec fn is_ws(c: char) -> bool {
    let u = c as u32;
    ||| (0x09 <= u && u <= 0x0D)
    ||| u == 0x20
    ||| u == 0x85
    ||| u == 0xA0
    ||| u == 0x1680
    ||| (0x2000 <= u && u <= 0x200A)
    ||| u == 0x2028
    ||| u == 0x2029
    ||| u == 0x202F
    ||| u == 0x205F
    ||| u == 0x3000
}

/// Drop a single leading U+FEFF byte-order mark; a mark anywhere else in the
/// text is left alone.
pub open spec fn strip_bom(s: Seq<char>) -> Seq<char> {
    if s.len() > 0 && s[0] == '\u{FEFF}' {
        s.skip(1)
    } else {
        s
    }
}

/// Drop leading whitespace.
pub open spec fn trim_front(s: Seq<char>) -> Seq<char>
    decreases s.len(),
{
    if s.len() > 0 && is_ws(s[0]) {
        trim_front(s.skip(1))
    } else {
        s
    }
}

/// Drop trailing whitespace.
pub open spec fn trim_back(s: Seq<char>) -> Seq<char>
    decreases s.len(),
{
    if s.len() > 0 && is_ws(s[s.len() - 1]) {
        trim_back(s.take(s.len() - 1))
    } else {
        s
    }
}

/// Drop whitespace from both ends, as `str::trim` does.
pub open spec fn trimmed(s: Seq<char>) -> Seq<char> {
    trim_back(trim_front(s))
}

/// Replace every maximal run of one or more whitespace characters with a
/// single ASCII space.
pub open spec fn collapse_ws(s: Seq<char>) -> Seq<char>
    decreases s.len(),
{
    if s.len() == 0 {
        Seq::empty()
    } else if is_ws(s[0]) {
        if s.len() > 1 && is_ws(s[1]) {
            collapse_ws(s.skip(1))
        } else {
            seq![' '] + collapse_ws(s.skip(1))
        }
    } else {
        seq![s[0]] + collapse_ws(s.skip(1))
    }
}

/// The whole text normalization: BOM stripping, then trimming, then
/// whitespace collapsing.
pub open spec fn normalized(s: Seq<char>) -> Seq<char> {
    collapse_ws(trimmed(strip_bom(s)))
}

/// True for ASCII letters and digits, the only characters the encoder passes
/// through unescaped.
pub open spec fn is_alnum(c: char) -> bool {
    let u = c as u32;
    ||| (0x30 <= u && u <= 0x39)
    ||| (0x41 <= u && u <= 0x5A)
    ||| (0x61 <= u && u <= 0x7A)
}

/// The uppercase hexadecimal digit for a value below 16.
pub open spec fn hex_upper(n: u8) -> char
    recommends
        n < 16,
{
    if n == 0 {
        '0'
    } else if n == 1 {
        '1'
    } else if n == 2 {
        '2'
    } else if n == 3 {
        '3'
    } else if n == 4 {
        '4'
    } else if n == 5 {
        '5'
    } else if n == 6 {
        '6'
    } else if n == 7 {
        '7'
    } else if n == 8 {
        '8'
    } else if n == 9 {
        '9'
    } else if n == 10 {
        'A'
    } else if n == 11 {
        'B'
    } else if n == 12 {
        'C'
    } else if n == 13 {
        'D'
    } else if n == 14 {
        'E'
    } else {
        'F'
    }
}

/// One percent escape: `%` followed by the byte's two uppercase hex digits.
pub open spec fn escape_byte(b: u8) -> Seq<char> {
    seq!['%', hex_upper(b >> 4), hex_upper(b & 0xF)]
}

/// The percent escapes of a byte sequence, in order.
pub open spec fn escape_bytes(bs: Seq<u8>) -> Seq<char>
    decreases bs.len(),
{
    if bs.len() == 0 {
        Seq::empty()
    } else {
        escape_byte(bs[0]) + escape_bytes(bs.skip(1))
    }
}

/// What the encoder emits for one character: the character itself if it is an
/// ASCII letter or digit, otherwise the percent escapes of its UTF-8 bytes.
pub open spec fn encode_char(c: char) -> Seq<char> {
    if is_alnum(c) {
        seq![c]
    } else {
        escape_bytes(encode_scalar(c as u32))
    }
}

/// The percent-encoding of a whole text, character by character.
pub open spec fn percent_encoded(s: Seq<char>) -> Seq<char>
    decreases s.len(),
{
    if s.len() == 0 {
        Seq::empty()
    } else {
        encode_char(s[0]) + percent_encoded(s.skip(1))
    }
}

/// The full contract of [`svg_str_to_data_uri`]: the `data:image/svg+xml,`
/// prefix followed by the percent-encoded normalized text.
pub open spec fn spec_svg_data_uri(s: Seq<char>) -> Seq<char> {
    "data:image/svg+xml,"@ + percent_encoded(normalized(s))
}

/// A text is in collapsed form when every whitespace character in it is a
/// single ASCII space and no two whitespace characters are adjacent.
pub open spec fn well_collapsed(s: Seq<char>) -> bool {
    &&& forall|i: int| 0 <= i < s.len() && is_ws(#[trigger] s[i]) ==> s[i] == ' '
    &&& forall|i: int| 0 <= i && i + 1 < s.len() ==> !(is_ws(#[trigger] s[i]) && is_ws(s[i + 1]))
}

proof fn lemma_trim_front_no_leading_ws(s: Seq<char>)
    ensures
        trim_front(s).len() <= s.len(),
        trim_front(s).len() > 0 ==> !is_ws(trim_front(s)[0]),
    decreases s.len(),
{
    if s.len() > 0 && is_ws(s[0]) {
        lemma_trim_front_no_leading_ws(s.skip(1));
    }
}

proof fn lemma_trim_back_prefix(s: Seq<char>)
    ensures
        trim_back(s).len() <= s.len(),
        trim_back(s) == s.take(trim_back(s).len() as int),
        trim_back(s).len() > 0 ==> !is_ws(trim_back(s)[trim_back(s).len() - 1]),
    decreases s.len(),
{
    if s.len() > 0 && is_ws(s[s.len() - 1]) {
        lemma_trim_back_prefix(s.take(s.len() - 1));
        assert(s.take(s.len() - 1).take(trim_back(s).len() as int) =~= s.take(
            trim_back(s).len() as int,
        ));
    } else {
        assert(s.take(s.len() as int) =~= s);
    }
}

/// A trimmed text starts and ends with a non-whitespace character, unless it
/// is empty.
proof fn lemma_trimmed_ends(s: Seq<char>)
    ensures
        trimmed(s).len() > 0 ==> !is_ws(trimmed(s)[0]) && !is_ws(trimmed(s)[trimmed(s).len() - 1]),
{
    lemma_trim_front_no_leading_ws(s);
    lemma_trim_back_prefix(trim_front(s));
}

proof fn lemma_collapse_first(s: Seq<char>)
    requires
        s.len() > 0,
        !is_ws(s[0]),
    ensures
        collapse_ws(s).len() > 0,
        collapse_ws(s)[0] == s[0],
{
}

proof fn lemma_collapse_last(s: Seq<char>)
    requires
        s.len() > 0,
        !is_ws(s[s.len() - 1]),
    ensures
        collapse_ws(s).len() > 0,
        collapse_ws(s)[collapse_ws(s).len() - 1] == s[s.len() - 1],
    decreases s.len(),
{
    if s.len() == 1 {
        assert(collapse_ws(s.skip(1)) =~= Seq::<char>::empty());
        assert(collapse_ws(s) =~= seq![s[0]]);
    } else {
        assert(s.skip(1)[s.skip(1).len() - 1] == s[s.len() - 1]);
        lemma_collapse_last(s.skip(1));
        let c1 = collapse_ws(s.skip(1));
        if is_ws(s[0]) && is_ws(s[1]) {
        } else if is_ws(s[0]) {
            assert((seq![' '] + c1)[(seq![' '] + c1).len() - 1] == c1[c1.len() - 1]);
        } else {
            assert((seq![s[0]] + c1)[(seq![s[0]] + c1).len() - 1] == c1[c1.len() - 1]);
        }
    }
}

proof fn lemma_collapse_well(s: Seq<char>)
    ensures
        well_collapsed(collapse_ws(s)),
    decreases s.len(),
{
    if s.len() == 0 {
    } else {
        lemma_collapse_well(s.skip(1));
        let c1 = collapse_ws(s.skip(1));
        if is_ws(s[0]) {
            if s.len() > 1 && is_ws(s[1]) {
            } else {
                if s.len() > 1 {
                    lemma_collapse_first(s.skip(1));
                }
                let out = seq![' '] + c1;
                assert forall|i: int| 0 <= i && i + 1 < out.len() implies !(is_ws(#[trigger] out[i]) && is_ws(
                    out[i + 1],
                )) by {
                    if i == 0 {
                        assert(out[1] == c1[0]);
                    } else {
                        assert(out[i] == c1[i - 1] && out[i + 1] == c1[i]);
                    }
                }
            }
        } else {
            let out = seq![s[0]] + c1;
            assert forall|i: int| 0 <= i && i + 1 < out.len() implies !(is_ws(#[trigger] out[i]) && is_ws(
                out[i + 1],
            )) by {
                if i > 0 {
                    assert(out[i] == c1[i - 1] && out[i + 1] == c1[i]);
                }
            }
        }
    }
}

proof fn lemma_collapse_identity(s: Seq<char>)
    requires
        well_collapsed(s),
    ensures
        collapse_ws(s) == s,
    decreases s.len(),
{
    if s.len() == 0 {
        assert(collapse_ws(s) =~= s);
    } else {
        assert(well_collapsed(s.skip(1))) by {
            assert forall|i: int| 0 <= i < s.skip(1).len() && is_ws(#[trigger] s.skip(1)[i])
                implies s.skip(1)[i] == ' ' by {
                assert(s.skip(1)[i] == s[i + 1]);
            }
            assert forall|i: int| 0 <= i && i + 1 < s.skip(1).len() implies !(is_ws(
                #[trigger] s.skip(1)[i],
            ) && is_ws(s.skip(1)[i + 1])) by {
                assert(s.skip(1)[i] == s[i + 1] && s.skip(1)[i + 1] == s[i + 2]);
            }
        }
        lemma_collapse_identity(s.skip(1));
        if is_ws(s[0]) {
            assert(s[0] == ' ');
            if s.len() > 1 {
                assert(!(is_ws(s[0]) && is_ws(s[1])));
            }
            assert(collapse_ws(s) == seq![' '] + s.skip(1));
            assert(seq![' '] + s.skip(1) =~= s);
        } else {
            assert(seq![s[0]] + s.skip(1) =~= s);
        }
    }
}

/// Law: the trim-and-collapse step is idempotent — running it on its own
/// output changes nothing, since the output has no outer whitespace and no
/// interior run longer than a single space.
pub proof fn lemma_trim_collapse_idempotent(s: Seq<char>)
    ensures
        collapse_ws(trimmed(collapse_ws(trimmed(s)))) == collapse_ws(trimmed(s)),
{
    let t = trimmed(s);
    let u = collapse_ws(t);
    lemma_trimmed_ends(s);
    if u.len() == 0 {
        assert(u =~= Seq::<char>::empty());
        assert(collapse_ws(trimmed(u)) =~= u);
    } else {
        assert(t.len() > 0);
        lemma_collapse_first(t);
        lemma_collapse_last(t);
        assert(trim_front(u) == u);
        assert(trim_back(u) == u);
        lemma_collapse_well(t);
        lemma_collapse_identity(u);
    }
}

/// Law: a leading byte-order mark never reaches the output. For a text that
/// does not itself begin with one, prepending the mark yields the very same
/// data URI.
pub proof fn lemma_bom_ignored(s: Seq<char>)
    requires
        s.len() == 0 || s[0] != '\u{FEFF}',
    ensures
        spec_svg_data_uri(seq!['\u{FEFF}'] + s) == spec_svg_data_uri(s),
{
    assert((seq!['\u{FEFF}'] + s).skip(1) =~= s);
    assert(strip_bom(seq!['\u{FEFF}'] + s) == s);
    assert(strip_bom(s) == s);
}

/// Law: an ASCII letter or digit passes through the encoder unescaped, as
/// itself.
pub proof fn lemma_alnum_passthrough(c: char)
    requires
        is_alnum(c),
    ensures
        encode_char(c) == seq![c],
{
}

proof fn lemma_escape_bytes_shape(bs: Seq<u8>)
    ensures
        escape_bytes(bs).len() == 3 * bs.len(),
        forall|k: int|
            0 <= k < bs.len() ==> escape_bytes(bs).subrange(3 * k, 3 * k + 3) == escape_byte(
                #[trigger] bs[k],
            ),
    decreases bs.len(),
{
    if bs.len() > 0 {
        lemma_escape_bytes_shape(bs.skip(1));
        let out = escape_bytes(bs);
        assert forall|k: int| 0 <= k < bs.len() implies out.subrange(3 * k, 3 * k + 3)
            == escape_byte(#[trigger] bs[k]) by {
            if k == 0 {
                assert(out.subrange(0, 3) =~= escape_byte(bs[0]));
            } else {
                assert(bs.skip(1)[k - 1] == bs[k]);
                assert(out.subrange(3 * k, 3 * k + 3) =~= escape_bytes(bs.skip(1)).subrange(
                    3 * (k - 1),
                    3 * (k - 1) + 3,
                ));
            }
        }
    }
}

/// Law: every character that is not an ASCII letter or digit is emitted as
/// `%XX` escapes, one for each of its UTF-8 bytes in order — each escape a
/// `%` followed by the byte's two uppercase hexadecimal digits.
pub proof fn lemma_other_escaped(c: char)
    requires
        !is_alnum(c),
    ensures
        encode_char(c).len() == 3 * encode_scalar(c as u32).len(),
        forall|k: int|
            0 <= k < encode_scalar(c as u32).len() ==> encode_char(c).subrange(3 * k, 3 * k + 3)
                == escape_byte(#[trigger] encode_scalar(c as u32)[k]),
{
    lemma_escape_bytes_shape(encode_scalar(c as u32));
}

proof fn lemma_hex_upper_alnum(n: u8)
    requires
        n < 16,
    ensures
        is_alnum(hex_upper(n)),
{
}

proof fn lemma_escape_bytes_charset(bs: Seq<u8>)
    ensures
        forall|i: int|
            0 <= i < escape_bytes(bs).len() ==> is_alnum(#[trigger] escape_bytes(bs)[i])
                || escape_bytes(bs)[i] == '%',
    decreases bs.len(),
{
    if bs.len() > 0 {
        lemma_escape_bytes_charset(bs.skip(1));
        let out = escape_bytes(bs);
        assert forall|i: int| 0 <= i < out.len() implies is_alnum(#[trigger] out[i]) || out[i]
            == '%' by {
            let b = bs[0];
            if i == 1 {
                assert(b >> 4 < 16) by (bit_vector);
                lemma_hex_upper_alnum(b >> 4);
            } else if i == 2 {
                assert(b & 0xF < 16) by (bit_vector);
                lemma_hex_upper_alnum(b & 0xF);
            } else if i >= 3 {
                assert(out[i] == escape_bytes(bs.skip(1))[i - 3]);
            }
        }
    }
}

/// Law: the encoded text is made of ASCII letters and digits carried over
/// from the input and of percent escapes, nothing else — every character of
/// it is an ASCII letter or digit or a `%`.
pub proof fn lemma_encoded_charset(s: Seq<char>)
    ensures
        forall|i: int|
            0 <= i < percent_encoded(s).len() ==> is_alnum(#[trigger] percent_encoded(s)[i])
                || percent_encoded(s)[i] == '%',
    decreases s.len(),
{
    if s.len() > 0 {
        lemma_encoded_charset(s.skip(1));
        if !is_alnum(s[0]) {
            lemma_escape_bytes_charset(encode_scalar(s[0] as u32));
        }
        let out = percent_encoded(s);
        let head = encode_char(s[0]);
        assert forall|i: int| 0 <= i < out.len() implies is_alnum(#[trigger] out[i]) || out[i]
            == '%' by {
            if i >= head.len() {
                assert(out[i] == percent_encoded(s.skip(1))[i - head.len()]);
            } else {
                assert(out[i] == head[i]);
            }
        }
    }
}

fn is_ws_char(c: char) -> (r: bool)
    ensures
        r == is_ws(c),
{
    let u = c as u32;
    (0x09 <= u && u <= 0x0D) || u == 0x20 || u == 0x85 || u == 0xA0 || u == 0x1680 || (0x2000 <= u
        && u <= 0x200A) || u == 0x2028 || u == 0x2029 || u == 0x202F || u == 0x205F || u == 0x3000
}

fn is_alnum_char(c: char) -> (r: bool)
    ensures
        r == is_alnum(c),
{
    let u = c as u32;
    (0x30 <= u && u <= 0x39) || (0x41 <= u && u <= 0x5A) || (0x61 <= u && u <= 0x7A)
}

fn hex_upper_digit(n: u8) -> (c: char)
    requires
        n < 16,
    ensures
        c == hex_upper(n),
{
    if n == 0 {
        '0'
    } else if n == 1 {
        '1'
    } else if n == 2 {
        '2'
    } else if n == 3 {
        '3'
    } else if n == 4 {
        '4'
    } else if n == 5 {
        '5'
    } else if n == 6 {
        '6'
    } else if n == 7 {
        '7'
    } else if n == 8 {
        '8'
    } else if n == 9 {
        '9'
    } else if n == 10 {
        'A'
    } else if n == 11 {
        'B'
    } else if n == 12 {
        'C'
    } else if n == 13 {
        'D'
    } else if n == 14 {
        'E'
    } else {
        'F'
    }
}

fn chars_of_str(s: &str) -> (v: Vec<char>)
    ensures
        v@ == s@,
{
    let n = s.unicode_len();
    let mut v: Vec<char> = Vec::new();
    let mut i: usize = 0;
    while i < n
        invariant
            n == s@.len(),
            i <= n,
            v@ == s@.take(i as int),
        decreases n - i,
    {
        let c = s.get_char(i);
        v.push(c);
        proof {
            assert(v@ =~= s@.take(i + 1));
        }
        i = i + 1;
    }
    proof {
        assert(v@ =~= s@);
    }
    v
}

/// The UTF-8 bytes of one character.
fn utf8_of_char(c: char) -> (r: Vec<u8>)
    ensures
        r@ == encode_scalar(c as u32),
{
    let u = c as u32;
    proof {
        char_is_scalar(c);
    }
    if u < 0x80 {
        let b0: u8 = (u & 0x7F) as u8;
        let r = vec![b0];
        proof {
            assert(r@ =~= encode_scalar(u));
        }
        r
    } else if u < 0x800 {
        let b0: u8 = 0xC0u8 | (((u >> 6) & 0x1F) as u8);
        let b1: u8 = 0x80u8 | ((u & 0x3F) as u8);
        let r = vec![b0, b1];
        proof {
            assert(r@ =~= encode_scalar(u));
        }
        r
    } else if u < 0x10000 {
        let b0: u8 = 0xE0u8 | (((u >> 12) & 0x0F) as u8);
        let b1: u8 = 0x80u8 | (((u >> 6) & 0x3F) as u8);
        let b2: u8 = 0x80u8 | ((u & 0x3F) as u8);
        let r = vec![b0, b1, b2];
        proof {
            assert(r@ =~= encode_scalar(u));
        }
        r
    } else {
        let b0: u8 = 0xF0u8 | (((u >> 18) & 0x7) as u8);
        let b1: u8 = 0x80u8 | (((u >> 12) & 0x3F) as u8);
        let b2: u8 = 0x80u8 | (((u >> 6) & 0x3F) as u8);
        let b3: u8 = 0x80u8 | ((u & 0x3F) as u8);
        let r = vec![b0, b1, b2, b3];
        proof {
            assert(r@ =~= encode_scalar(u));
        }
        r
    }
}

/// Normalize a character sequence: strip one leading byte-order mark, trim
/// outer whitespace, collapse interior whitespace runs to single spaces.
fn normalize_chars(v: &Vec<char>) -> (out: Vec<char>)
    ensures
        out@ == normalized(v@),
{
    let ghost sb = strip_bom(v@);
    let start: usize = if v.len() > 0 && v[0] == '\u{FEFF}' {
        1
    } else {
        0
    };
    proof {
        assert(sb =~= v@.skip(start as int));
    }
    let mut lo: usize = start;
    while lo < v.len() && is_ws_char(v[lo])
        invariant
            start <= lo <= v.len(),
            sb == v@.skip(start as int),
            trim_front(sb) == trim_front(v@.skip(lo as int)),
        decreases v.len() - lo,
    {
        proof {
            assert(v@.skip(lo as int).skip(1) =~= v@.skip(lo + 1));
        }
        lo = lo + 1;
    }
    proof {
        assert(trim_front(sb) == v@.skip(lo as int));
    }
    let ghost tf = v@.skip(lo as int);
    let mut hi: usize = v.len();
    proof {
        assert(tf.take(hi - lo) =~= tf);
    }
    while hi > lo && is_ws_char(v[hi - 1])
        invariant
            lo <= hi <= v.len(),
            tf == v@.skip(lo as int),
            trim_back(tf) == trim_back(tf.take(hi - lo)),
        decreases hi,
    {
        proof {
            let j = hi - lo;
            assert(tf.take(j)[j - 1] == v@[hi - 1]);
            assert(tf.take(j).take(j - 1) =~= tf.take(j - 1));
        }
        hi = hi - 1;
    }
    proof {
        if hi > lo {
            assert(tf.take(hi - lo)[hi - lo - 1] == v@[hi - 1]);
        }
        assert(trim_back(tf) == tf.take(hi - lo));
        assert(tf.take(hi - lo) =~= v@.subrange(lo as int, hi as int));
    }
    let ghost t = trimmed(sb);
    proof {
        assert(t == v@.subrange(lo as int, hi as int));
    }
    let mut out: Vec<char> = Vec::new();
    let mut i: usize = lo;
    proof {
        assert(t.skip(0) =~= t);
        assert(out@ + collapse_ws(t) =~= collapse_ws(t));
    }
    while i < hi
        invariant
            lo <= i <= hi <= v.len(),
            t == v@.subrange(lo as int, hi as int),
            collapse_ws(t) == out@ + collapse_ws(t.skip(i - lo)),
        decreases hi - i,
    {
        let ghost rest = t.skip(i - lo);
        proof {
            assert(rest[0] == v@[i as int]);
            assert(rest.skip(1) =~= t.skip(i + 1 - lo));
            if i + 1 < hi {
                assert(rest[1] == v@[i + 1]);
            }
        }
        let c = v[i];
        if is_ws_char(c) {
            if !(i + 1 < hi && is_ws_char(v[i + 1])) {
                out.push(' ');
                proof {
                    assert(collapse_ws(rest) == seq![' '] + collapse_ws(rest.skip(1)));
                    assert(out@ + collapse_ws(t.skip(i + 1 - lo)) =~= collapse_ws(t));
                }
            } else {
                proof {
                    assert(collapse_ws(rest) == collapse_ws(rest.skip(1)));
                }
            }
        } else {
            out.push(c);
            proof {
                assert(collapse_ws(rest) == seq![c] + collapse_ws(rest.skip(1)));
                assert(out@ + collapse_ws(t.skip(i + 1 - lo)) =~= collapse_ws(t));
            }
        }
        i = i + 1;
    }
    proof {
        assert(t.skip(hi - lo) =~= Seq::<char>::empty());
        assert(out@ =~= collapse_ws(t));
    }
    out
}

/// Percent-encode a character sequence: ASCII letters and digits pass
/// through, everything else becomes `%XX` escapes of its UTF-8 bytes.
fn percent_encode_chars(v: &Vec<char>) -> (out: Vec<char>)
    ensures
        out@ == percent_encoded(v@),
{
    let mut out: Vec<char> = Vec::new();
    let mut i: usize = 0;
    proof {
        assert(v@.skip(0) =~= v@);
        assert(out@ + percent_encoded(v@) =~= percent_encoded(v@));
    }
    while i < v.len()
        invariant
            i <= v.len(),
            percent_encoded(v@) == out@ + percent_encoded(v@.skip(i as int)),
        decreases v.len() - i,
    {
        let ghost rest = v@.skip(i as int);
        proof {
            assert(rest[0] == v@[i as int]);
            assert(rest.skip(1) =~= v@.skip(i + 1));
        }
        let c = v[i];
        if is_alnum_char(c) {
            out.push(c);
            proof {
                assert(out@ + percent_encoded(v@.skip(i + 1)) =~= percent_encoded(v@));
            }
        } else {
            let bs = utf8_of_char(c);
            let ghost pre = out@;
            let mut j: usize = 0;
            proof {
                assert(bs@.skip(0) =~= bs@);
            }
            while j < bs.len()
                invariant
                    j <= bs.len(),
                    bs@ == encode_scalar(c as u32),
                    out@ + escape_bytes(bs@.skip(j as int)) == pre + escape_bytes(bs@),
                decreases bs.len() - j,
            {
                let ghost brest = bs@.skip(j as int);
                proof {
                    assert(brest[0] == bs@[j as int]);
                    assert(brest.skip(1) =~= bs@.skip(j + 1));
                }
                let b = bs[j];
                proof {
                    assert(b >> 4 < 16) by (bit_vector);
                    assert(b & 0xF < 16) by (bit_vector);
                }
                out.push('%');
                out.push(hex_upper_digit(b >> 4));
                out.push(hex_upper_digit(b & 0xF));
                proof {
                    assert(escape_bytes(brest) == escape_byte(b) + escape_bytes(brest.skip(1)));
                    assert(out@ + escape_bytes(bs@.skip(j + 1)) =~= pre + escape_bytes(bs@));
                }
                j = j + 1;
            }
            proof {
                assert(bs@.skip(bs@.len() as int) =~= Seq::<u8>::empty());
                assert(out@ =~= pre + escape_bytes(bs@));
                assert(encode_char(c) == escape_bytes(bs@));
                assert(out@ + percent_encoded(v@.skip(i + 1)) =~= percent_encoded(v@));
            }
        }
        i = i + 1;
    }
    proof {
        assert(v@.skip(v@.len() as int) =~= Seq::<char>::empty());
        assert(out@ =~= percent_encoded(v@));
    }
    out
}

/// Relies on `String::push`: appends the given character to the end of the
/// string.
#[verifier::external_body]
fn push_char(s: &mut String, c: char)
    ensures
        final(s)@ == old(s)@ + seq![c],
{
    s.push(c);
}

/// Turn SVG markup into a `data:image/svg+xml,` URI: one leading byte-order
/// mark is dropped, outer whitespace is trimmed, each interior whitespace run
/// collapses to a single space, and every character that is not an ASCII
/// letter or digit is percent-encoded as the uppercase hex escapes of its
/// UTF-8 bytes. Total over all inputs; the empty text yields the bare prefix.
pub fn svg_str_to_data_uri(svg: &str) -> (r: String)
    ensures
        r@ == spec_svg_data_uri(svg@),
{
    let chars = chars_of_str(svg);
    let norm = normalize_chars(&chars);
    let enc = percent_encode_chars(&norm);
    let mut out = String::from_str("data:image/svg+xml,");
    let mut i: usize = 0;
    while i < enc.len()
        invariant
            i <= enc.len(),
            enc@ == percent_encoded(normalized(svg@)),
            out@ == "data:image/svg+xml,"@ + enc@.take(i as int),
        decreases enc.len() - i,
    {
        let c = enc[i];
        push_char(&mut out, c);
        proof {
            assert(out@ =~= "data:image/svg+xml,"@ + enc@.take(i + 1));
        }
        i = i + 1;
    }
    proof {
        assert(enc@.take(enc@.len() as int) =~= enc@);
    }
    out
}

} // verus!

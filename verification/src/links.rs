use vstd::prelude::*;

use crate::errors::LeviError;
use vstd::string::{StringExecFns, StringSliceAdditionalSpecFns};
use crate::text::{chars_of, push_char};

verus! {

/// Whether `c` has the Unicode `White_Space` property, the set of characters
/// that `str::trim` removes: U+0009..=U+000D, U+0020, U+0085, U+00A0, U+1680,
/// U+2000..=U+200A, U+2028, U+2029, U+202F, U+205F and U+3000.
pub open spec fn is_white_space(c: char) -> bool {
    ||| '\u{9}' <= c <= '\u{d}'
    ||| c == ' '
    ||| c == '\u{85}'
    ||| c == '\u{a0}'
    ||| c == '\u{1680}'
    ||| '\u{2000}' <= c <= '\u{200a}'
    ||| c == '\u{2028}'
    ||| c == '\u{2029}'
    ||| c == '\u{202f}'
    ||| c == '\u{205f}'
    ||| c == '\u{3000}'
}

/// `s` without its leading white space.
pub open spec fn trim_start(s: Seq<char>) -> Seq<char>
    decreases s.len(),
{
    if s.len() > 0 && is_white_space(s[0]) {
        trim_start(s.drop_first())
    } else {
        s
    }
}

/// `s` without its trailing white space.
pub open spec fn trim_end(s: Seq<char>) -> Seq<char>
    decreases s.len(),
{
    if s.len() > 0 && is_white_space(s.last()) {
        trim_end(s.drop_last())
    } else {
        s
    }
}

/// `s` without its leading and trailing white space, as `str::trim` gives it.
pub open spec fn trim(s: Seq<char>) -> Seq<char> {
    trim_end(trim_start(s))
}

/// Tells whether `c` has the Unicode `White_Space` property.
pub fn white_space(c: char) -> (r: bool)
    ensures
        r == is_white_space(c),
{
    ('\u{9}' <= c && c <= '\u{d}') || c == ' ' || c == '\u{85}' || c == '\u{a0}' || c
        == '\u{1680}' || ('\u{2000}' <= c && c <= '\u{200a}') || c == '\u{2028}' || c
        == '\u{2029}' || c == '\u{202f}' || c == '\u{205f}' || c == '\u{3000}'
}

/// The bounds `(lo, hi)` of the trimmed part of `v`: `trim(v@) == v@[lo..hi]`.
fn trimmed_bounds(v: &Vec<char>) -> (r: (usize, usize))
    ensures
        r.0 <= r.1 <= v.len(),
        trim(v@) == v@.subrange(r.0 as int, r.1 as int),
{
    let n = v.len();
    let mut lo: usize = 0;
    assert(v@.skip(0) =~= v@);
    while lo < n && white_space(v[lo])
        invariant
            lo <= n == v.len(),
            trim_start(v@) == trim_start(v@.skip(lo as int)),
        decreases n - lo,
    {
        assert(v@.skip(lo as int).drop_first() =~= v@.skip(lo + 1));
        lo = lo + 1;
    }
    assert(trim_start(v@) == v@.subrange(lo as int, n as int)) by {
        assert(v@.skip(lo as int) =~= v@.subrange(lo as int, n as int));
    }
    let mut hi: usize = n;
    while hi > lo && white_space(v[hi - 1])
        invariant
            lo <= hi <= n == v.len(),
            trim(v@) == trim_end(v@.subrange(lo as int, hi as int)),
        decreases hi,
    {
        assert(v@.subrange(lo as int, hi as int).drop_last() =~= v@.subrange(
            lo as int,
            hi - 1,
        ));
        hi = hi - 1;
    }
    (lo, hi)
}

} // verus!

verus! {

/// The value of the hexadecimal digit `b` (`0-9`, `a-f`, `A-F`), if it is one.
pub open spec fn hex_digit_value(b: u8) -> Option<u8> {
    if 48 <= b <= 57 {
        Some((b - 48) as u8)
    } else if 97 <= b <= 102 {
        Some((b - 87) as u8)
    } else if 65 <= b <= 70 {
        Some((b - 55) as u8)
    } else {
        None
    }
}

/// What `u8::from_str_radix(s, 16)` gives for the two-byte string `s` made of
/// `b1` and `b2`: an optional `+` sign followed by digits only, else an error
/// (`None`). Two hex digits never exceed `u8::MAX`.
pub open spec fn escape_value(b1: u8, b2: u8) -> Option<u8> {
    if b1 == 43 {
        hex_digit_value(b2)
    } else {
        match (hex_digit_value(b1), hex_digit_value(b2)) {
            (Some(h), Some(l)) => Some((16 * h + l) as u8),
            _ => None,
        }
    }
}

/// Whether every `%` met while scanning `b` from the left is followed by two
/// bytes that form a valid escape; the two bytes of an escape are not scanned
/// for a `%` of their own.
pub open spec fn escapes_well_formed(b: Seq<u8>) -> bool
    decreases b.len(),
{
    if b.len() == 0 {
        true
    } else if b[0] == 37 {
        b.len() >= 3 && escape_value(b[1], b[2]) is Some && escapes_well_formed(b.skip(3))
    } else {
        escapes_well_formed(b.drop_first())
    }
}

/// `b` with each escape `%XY` replaced by the byte it stands for, every other
/// byte kept as it is.
pub open spec fn percent_decode(b: Seq<u8>) -> Seq<u8>
    decreases b.len(),
{
    if b.len() == 0 {
        Seq::empty()
    } else if b[0] == 37 {
        if b.len() >= 3 {
            seq![escape_value(b[1], b[2])->0] + percent_decode(b.skip(3))
        } else {
            Seq::empty()
        }
    } else {
        seq![b[0]] + percent_decode(b.drop_first())
    }
}

/// The value of the hexadecimal digit `b`, if it is one.
fn hex_digit(b: u8) -> (r: Option<u8>)
    ensures
        r == hex_digit_value(b),
{
    if 48 <= b && b <= 57 {
        Some(b - 48)
    } else if 97 <= b && b <= 102 {
        Some(b - 87)
    } else if 65 <= b && b <= 70 {
        Some(b - 55)
    } else {
        None
    }
}

/// The byte that the escape made of `b1` and `b2` stands for, if it is one.
pub fn escape(b1: u8, b2: u8) -> (r: Option<u8>)
    ensures
        r == escape_value(b1, b2),
{
    if b1 == 43 {
        hex_digit(b2)
    } else {
        match (hex_digit(b1), hex_digit(b2)) {
            (Some(h), Some(l)) => Some(16 * h + l),
            _ => None,
        }
    }
}

/// Tells whether every escape of `url` is well formed, so that
/// [`url_decode`] can decode it.
pub fn has_valid_escapes(url: &str) -> (r: bool)
    ensures
        r == escapes_well_formed(url.spec_bytes()),
{
    let b = url.as_bytes();
    let n = b.len();
    let mut i: usize = 0;
    assert(b@.skip(0) =~= b@);
    while i < n
        invariant
            i <= n == b@.len(),
            b@ == url.spec_bytes(),
            escapes_well_formed(b@) == escapes_well_formed(b@.skip(i as int)),
        decreases n - i,
    {
        if b[i] == 37 {
            if n - i < 3 {
                return false;
            }
            if escape(b[i + 1], b[i + 2]).is_none() {
                return false;
            }
            assert(b@.skip(i as int).skip(3) =~= b@.skip(i + 3));
            i = i + 3;
        } else {
            assert(b@.skip(i as int).drop_first() =~= b@.skip(i + 1));
            i = i + 1;
        }
    }
    true
}

/// The bytes of `url` with its escapes decoded.
fn percent_decoded_bytes(url: &str) -> (r: Vec<u8>)
    requires
        escapes_well_formed(url.spec_bytes()),
    ensures
        r@ == percent_decode(url.spec_bytes()),
{
    let b = url.as_bytes();
    let n = b.len();
    let mut out: Vec<u8> = Vec::new();
    let mut i: usize = 0;
    assert(b@.skip(0) =~= b@);
    while i < n
        invariant
            i <= n == b@.len(),
            b@ == url.spec_bytes(),
            escapes_well_formed(b@.skip(i as int)),
            percent_decode(b@) == out@ + percent_decode(b@.skip(i as int)),
        decreases n - i,
    {
        let ghost rest = b@.skip(i as int);
        if b[i] == 37 {
            let v = escape(b[i + 1], b[i + 2]);
            match v {
                Some(x) => out.push(x),
                None => {},
            }
            assert(rest.skip(3) =~= b@.skip(i + 3));
            i = i + 3;
        } else {
            out.push(b[i]);
            assert(rest.drop_first() =~= b@.skip(i + 1));
            i = i + 1;
        }
        assert(percent_decode(b@) == out@ + percent_decode(b@.skip(i as int)));
    }
    assert(b@.skip(n as int) =~= Seq::<u8>::empty());
    assert(out@ + Seq::<u8>::empty() =~= out@);
    out
}

} // verus!

verus! {

/// What decoding the escapes of `url` gives: its characters when the decoded
/// bytes are valid UTF-8, else the message of the UTF-8 error.
pub open spec fn decoded(url: Seq<char>) -> Result<Seq<char>, Seq<char>> {
    let b = percent_decode(vstd::utf8::encode_utf8(url));
    if vstd::utf8::valid_utf8(b) {
        Ok(vstd::utf8::decode_utf8(b))
    } else {
        Err(crate::text::utf8_error_message(b))
    }
}

/// Decodes the `%XY` escapes of `data`: each escape becomes the byte that its
/// two hex digits (or `+` and one hex digit) stand for, every other byte stays,
/// and the bytes are read back as UTF-8. Bytes that are not valid UTF-8 give
/// `LeviError::Url` with the UTF-8 error's message.
pub fn url_decode(data: &str) -> (r: Result<String, LeviError>)
    requires
        escapes_well_formed(data.spec_bytes()),
    ensures
        decoded(data@) matches Ok(s) ==> (r matches Ok(t) && t@ == s),
        decoded(data@) matches Err(m) ==> (r matches Err(LeviError::Url(e)) && e@ == m),
{
    let unescaped_bytes = percent_decoded_bytes(data);
    match crate::text::string_from_utf8(unescaped_bytes) {
        Ok(s) => Ok(s),
        Err(m) => Err(LeviError::Url(m)),
    }
}

} // verus!

verus! {

/// The longest suffix of `s` in which `c` does not occur: what follows the
/// last `c`, or all of `s` when `c` does not occur.
pub open spec fn suffix_after_last(s: Seq<char>, c: char) -> Seq<char>
    decreases s.len(),
{
    if s.len() == 0 {
        s
    } else if s.last() == c {
        Seq::empty()
    } else {
        suffix_after_last(s.drop_last(), c).push(s.last())
    }
}

/// The longest prefix of `s` in which `c` does not occur: what precedes the
/// first `c`, or all of `s` when `c` does not occur.
pub open spec fn prefix_before_first(s: Seq<char>, c: char) -> Seq<char>
    decreases s.len(),
{
    if s.len() == 0 {
        s
    } else if s[0] == c {
        Seq::empty()
    } else {
        seq![s[0]] + prefix_before_first(s.drop_first(), c)
    }
}

/// `f` with each `?` and `&` replaced by `-`.
pub open spec fn sanitized(f: Seq<char>) -> Seq<char> {
    f.map_values(|c: char| if c == '?' || c == '&' { '-' } else { c })
}

/// The extension that a file name `f` carries: when `f` holds a `.`, what
/// follows its last `.` up to the first `?` after it; otherwise none.
pub open spec fn extension_of(f: Seq<char>) -> Option<Seq<char>> {
    if f.contains('.') {
        Some(prefix_before_first(suffix_after_last(f, '.'), '?'))
    } else {
        None
    }
}

/// The name that remains of `f` once its extension is taken off.
///
/// When `f` holds a `.`, the characters after its last `.` are dropped, and
/// the `.` itself; the count of dropped characters is the number of *bytes*
/// of that tail in UTF-8 plus one, so a tail with characters beyond ASCII
/// takes as many more characters off the front part, all of it at most.
/// When `f` holds no `.`, it is `f` with `?` and `&` made `-`.
pub open spec fn file_name_of(f: Seq<char>) -> Seq<char> {
    if f.contains('.') {
        let k = crate::text::utf8_len(suffix_after_last(f, '.')) + 1;
        if k <= f.len() {
            f.take(f.len() - k)
        } else {
            Seq::empty()
        }
    } else {
        sanitized(f)
    }
}

/// The index at which the longest suffix of `v` free of `c` starts.
fn suffix_start(v: &Vec<char>, c: char) -> (j: usize)
    ensures
        j <= v.len(),
        v@.skip(j as int) == suffix_after_last(v@, c),
        j > 0 ==> v@[j - 1] == c,
        j == 0 ==> !v@.contains(c),
{
    let n = v.len();
    let mut j: usize = n;
    assert(v@.take(n as int) =~= v@);
    assert(v@.skip(n as int) =~= Seq::<char>::empty());
    while j > 0 && v[j - 1] != c
        invariant
            j <= n == v.len(),
            suffix_after_last(v@, c) == suffix_after_last(v@.take(j as int), c) + v@.skip(
                j as int,
            ),
            forall|i: int| j <= i < n ==> v@[i] != c,
        decreases j,
    {
        let ghost t = v@.take(j as int);
        assert(t.drop_last() =~= v@.take(j - 1));
        assert(t.last() == v@[j - 1]);
        assert(suffix_after_last(t, c) == suffix_after_last(v@.take(j - 1), c).push(v@[j - 1]));
        assert(suffix_after_last(v@.take(j - 1), c).push(v@[j - 1]) + v@.skip(j as int)
            =~= suffix_after_last(v@.take(j - 1), c) + v@.skip(j - 1));
        j = j - 1;
    }
    if j == 0 {
        assert(v@.take(0) =~= Seq::<char>::empty());
        assert(Seq::<char>::empty() + v@.skip(0) =~= v@.skip(0));
        assert(!v@.contains(c));
    } else {
        assert(v@.take(j as int).last() == v@[j - 1]);
        assert(Seq::<char>::empty() + v@.skip(j as int) =~= v@.skip(j as int));
    }
    j
}

/// The length of the longest prefix of `s` free of `c`.
proof fn lemma_prefix_before_first(s: Seq<char>, c: char, k: int)
    requires
        0 <= k <= s.len(),
        forall|i: int| 0 <= i < k ==> s[i] != c,
        k == s.len() || s[k] == c,
    ensures
        prefix_before_first(s, c) == s.take(k),
    decreases k,
{
    if k == 0 {
        assert(s.take(0) =~= Seq::<char>::empty());
    } else {
        lemma_prefix_before_first(s.drop_first(), c, k - 1);
        assert(seq![s[0]] + s.drop_first().take(k - 1) =~= s.take(k));
    }
}

/// The index of the first `c` in `v[lo..]`, or `v.len()` when there is none.
fn first_index_from(v: &Vec<char>, lo: usize, c: char) -> (k: usize)
    requires
        lo <= v.len(),
    ensures
        lo <= k <= v.len(),
        prefix_before_first(v@.skip(lo as int), c) == v@.subrange(lo as int, k as int),
{
    let n = v.len();
    let mut k: usize = lo;
    while k < n && v[k] != c
        invariant
            lo <= k <= n == v.len(),
            forall|i: int| lo <= i < k ==> v@[i] != c,
        decreases n - k,
    {
        k = k + 1;
    }
    proof {
        lemma_prefix_before_first(v@.skip(lo as int), c, k - lo);
        assert(v@.skip(lo as int).take(k - lo) =~= v@.subrange(lo as int, k as int));
    }
    k
}

/// The number of bytes of the UTF-8 encoding of `v[lo..]`.
fn utf8_len_from(v: &Vec<char>, lo: usize, total: usize) -> (r: usize)
    requires
        lo <= v.len(),
        crate::text::utf8_len(v@) == total,
    ensures
        r == crate::text::utf8_len(v@.skip(lo as int)),
{
    let n = v.len();
    let mut k: usize = lo;
    let mut r: usize = 0;
    assert(v@.subrange(lo as int, lo as int) =~= Seq::<char>::empty());
    while k < n
        invariant
            lo <= k <= n == v.len(),
            crate::text::utf8_len(v@) == total,
            r == crate::text::utf8_len(v@.subrange(lo as int, k as int)),
        decreases n - k,
    {
        let w = crate::text::utf8_width(v[k]);
        proof {
            let a = v@.subrange(lo as int, k as int);
            crate::text::lemma_encode_utf8_push(a, v@[k as int]);
            assert(a.push(v@[k as int]) =~= v@.subrange(lo as int, k + 1));
            assert(v@ =~= v@.take(lo as int) + v@.subrange(lo as int, k + 1) + v@.skip(k + 1));
            crate::text::lemma_encode_utf8_concat(v@.take(lo as int), v@.subrange(lo as int, k + 1));
            crate::text::lemma_encode_utf8_concat(
                v@.take(lo as int) + v@.subrange(lo as int, k + 1),
                v@.skip(k + 1),
            );
        }
        r = r + w;
        k = k + 1;
    }
    assert(v@.subrange(lo as int, n as int) =~= v@.skip(lo as int));
    r
}

/// `v` as a `String`, with each `?` and `&` replaced by `-`.
fn sanitize(v: &Vec<char>) -> (s: String)
    ensures
        s@ == sanitized(v@),
{
    let mut s = String::new();
    let mut i: usize = 0;
    while i < v.len()
        invariant
            i <= v.len(),
            s@ == sanitized(v@.take(i as int)),
        decreases v.len() - i,
    {
        let c = v[i];
        let d = if c == '?' || c == '&' {
            '-'
        } else {
            c
        };
        push_char(&mut s, d);
        assert(sanitized(v@.take(i + 1)) =~= sanitized(v@.take(i as int)).push(d));
        i = i + 1;
    }
    assert(v@.take(v.len() as int) =~= v@);
    s
}

} // verus!

verus! {

/// The characters held by an optional `String`.
pub open spec fn opt_view(o: Option<String>) -> Option<Seq<char>> {
    match o {
        Some(s) => Some(s@),
        None => None,
    }
}

/// A file link: the URL it was made from, and the name and the extension of
/// the file that the URL points to.
pub struct FileLink {
    pub url: String,
    pub filename: String,
    pub extension: Option<String>,
}

impl FileLink {
    /// Splits a file name into its extension and the rest.
    ///
    /// With a `.` in `filename`, the extension is what follows the last `.`
    /// up to the first `?` after it, and the name is what remains in front
    /// once as many characters as the tail after the last `.` has bytes, plus
    /// one, are taken off the end. Without a `.`, there is no extension and
    /// the name is `filename` with each `?` and `&` replaced by `-`.
    pub fn extract_extension_from_filename(filename: &str) -> (r: (Option<String>, String))
        ensures
            opt_view(r.0) == extension_of(filename@),
            r.1@ == file_name_of(filename@),
    {
        let v = chars_of(filename);
        let total = filename.as_bytes().len();
        let j = suffix_start(&v, '.');
        if j > 0 {
            let n = v.len();
            let k = first_index_from(&v, j, '?');
            let ext = crate::text::string_from_chars(&v, j, k);
            let after_dot_len = utf8_len_from(&v, j, total);
            proof {
                assert(v@ =~= v@.take(j as int) + v@.skip(j as int));
                crate::text::lemma_encode_utf8_concat(v@.take(j as int), v@.skip(j as int));
                assert(vstd::utf8::encode_utf8(v@.take(j as int)).len() > 0) by {
                    assert(v@.take(j as int).len() > 0);
                    vstd::utf8::char_is_scalar(v@[0]);
                    assert(v@.take(j as int)[0] == v@[0]);
                }
                assert(v@.contains('.')) by {
                    assert(v@[j - 1] == '.');
                }
            }
            let skipped = after_dot_len + 1;
            let keep = if skipped <= n {
                n - skipped
            } else {
                0
            };
            let name = crate::text::string_from_chars(&v, 0, keep);
            proof {
                assert(v@.subrange(0, keep as int) =~= v@.take(keep as int));
                if skipped > n {
                    assert(v@.take(0) =~= Seq::<char>::empty());
                }
            }
            (Some(ext), name)
        } else {
            (None, sanitize(&v))
        }
    }
}

} // verus!

verus! {

/// The message of `LeviError::Url` that `FileLink::new` fails with for
/// `url`, or `None` when it succeeds: a URL that is blank once trimmed, one
/// that ends in `/` once trimmed, and one whose decoded bytes are not UTF-8.
pub open spec fn link_error(url: Seq<char>) -> Option<Seq<char>> {
    let t = trim(url);
    if t.len() == 0 {
        Some("Url cannot be empty"@)
    } else if t.last() == '/' {
        Some("Url couldn't find an extension: "@ + url)
    } else {
        match decoded(url) {
            Ok(_) => None,
            Err(m) => Some(m),
        }
    }
}

/// The last segment of the decoded `url`: what follows its last `/`.
pub open spec fn url_segment(url: Seq<char>) -> Seq<char> {
    suffix_after_last(decoded(url)->Ok_0, '/')
}

/// Whether `FileLink::new` can run on `url` without a panic: the decoding
/// step, which `url` reaches unless it is blank or ends in `/` once trimmed,
/// meets only well-formed escapes.
pub open spec fn link_decodable(url: &str) -> bool {
    trim(url@).len() > 0 && trim(url@).last() != '/' ==> escapes_well_formed(url.spec_bytes())
}

/// Tells whether `FileLink::new` can run on `url` without a panic.
pub fn is_link_decodable(url: &str) -> (r: bool)
    ensures
        r == link_decodable(url),
{
    let v = chars_of(url);
    let (lo, hi) = trimmed_bounds(&v);
    if lo == hi || v[hi - 1] == '/' {
        true
    } else {
        has_valid_escapes(url)
    }
}

impl FileLink {
    /// Makes the file link of `url`.
    ///
    /// Fails with `LeviError::Url` when `url` is blank or ends in `/` once
    /// trimmed, or when its decoded bytes are not UTF-8. Otherwise the
    /// name and the extension come from the last segment of the decoded URL,
    /// as `extract_extension_from_filename` splits it, and `url` is kept as
    /// given.
    pub fn new(url: &str) -> (r: Result<FileLink, LeviError>)
        requires
            link_decodable(url),
        ensures
            link_error(url@) matches Some(m) ==> (r matches Err(LeviError::Url(e)) && e@ == m),
            link_error(url@) is None ==> (r matches Ok(fl) && fl.url@ == url@ && fl.filename@
                == file_name_of(url_segment(url@)) && opt_view(fl.extension) == extension_of(
                url_segment(url@),
            )),
    {
        let v = chars_of(url);
        let (lo, hi) = trimmed_bounds(&v);
        if lo == hi {
            return Err(LeviError::Url(String::from_str("Url cannot be empty")));
        }
        if v[hi - 1] == '/' {
            let mut message = String::from_str("Url couldn't find an extension: ");
            message.append(url);
            return Err(LeviError::Url(message));
        }
        let url_decoded = match url_decode(url) {
            Ok(s) => s,
            Err(e) => {
                return Err(e);
            },
        };
        let d = chars_of(url_decoded.as_str());
        let j = suffix_start(&d, '/');
        let last_segment = crate::text::string_from_chars(&d, j, d.len());
        proof {
            assert(d@.subrange(j as int, d.len() as int) =~= d@.skip(j as int));
        }
        let (extension, filename) = Self::extract_extension_from_filename(last_segment.as_str());
        let url = String::from_str(url);
        Ok(FileLink { url, filename, extension })
    }
}

} // verus!

verus! {

/// `s` is what precedes its last `c`, then that `c`, then the suffix after it.
proof fn lemma_split_at_last(s: Seq<char>, c: char)
    ensures
        !suffix_after_last(s, c).contains(c),
        suffix_after_last(s, c).len() <= s.len(),
        s.contains(c) ==> s == s.take(s.len() - suffix_after_last(s, c).len() - 1) + seq![c]
            + suffix_after_last(s, c),
        !s.contains(c) ==> suffix_after_last(s, c) == s,
    decreases s.len(),
{
    if s.len() == 0 {
    } else if s.last() == c {
        assert(s.take(s.len() - 1) + seq![c] + Seq::<char>::empty() =~= s);
    } else {
        let r = s.drop_last();
        lemma_split_at_last(r, c);
        let t = suffix_after_last(r, c);
        assert(!t.push(s.last()).contains(c)) by {
            if t.push(s.last()).contains(c) {
                let k = choose|k: int| 0 <= k < t.len() + 1 && t.push(s.last())[k] == c;
                if k < t.len() {
                    assert(t.contains(c));
                }
            }
        }
        if s.contains(c) {
            let k = choose|k: int| 0 <= k < s.len() && s[k] == c;
            assert(r[k] == c);
            assert(r.contains(c));
            assert(s =~= s.take(s.len() - t.len() - 2) + seq![c] + t.push(s.last())) by {
                let a = r.take(r.len() - t.len() - 1);
                assert(r == a + seq![c] + t);
                assert(a =~= s.take(s.len() - t.len() - 2));
                assert(s =~= r.push(s.last()));
                assert((a + seq![c] + t).push(s.last()) =~= a + seq![c] + t.push(s.last()));
            }
        } else {
            assert(!r.contains(c)) by {
                if r.contains(c) {
                    let k = choose|k: int| 0 <= k < r.len() && r[k] == c;
                    assert(s[k] == c);
                }
            }
            assert(t.push(s.last()) =~= s);
        }
    }
}

/// The longest prefix of `s` free of `c` is a prefix of `s` in which `c`
/// does not occur.
proof fn lemma_prefix_free(s: Seq<char>, c: char)
    ensures
        prefix_before_first(s, c) == s.take(prefix_before_first(s, c).len() as int),
        prefix_before_first(s, c).len() < s.len() ==> s[prefix_before_first(s, c).len() as int]
            == c,
        prefix_before_first(s, c).len() <= s.len(),
        !prefix_before_first(s, c).contains(c),
    decreases s.len(),
{
    if s.len() == 0 {
        assert(s.take(0) =~= s);
    } else if s[0] == c {
        assert(s.take(0) =~= Seq::<char>::empty());
    } else {
        let r = s.drop_first();
        lemma_prefix_free(r, c);
        let p = prefix_before_first(r, c);
        assert(seq![s[0]] + p =~= s.take(p.len() + 1int));
        assert(!(seq![s[0]] + p).contains(c)) by {
            if (seq![s[0]] + p).contains(c) {
                let k = choose|k: int| 0 <= k < p.len() + 1 && (seq![s[0]] + p)[k] == c;
                assert(p[k - 1] == c);
            }
        }
    }
}

/// A character that occurs in a prefix occurs in the whole.
proof fn lemma_take_contains(s: Seq<char>, k: int, c: char)
    requires
        0 <= k <= s.len(),
        !s.contains(c),
    ensures
        !s.take(k).contains(c),
{
    if s.take(k).contains(c) {
        let i = choose|i: int| 0 <= i < k && s.take(k)[i] == c;
        assert(s[i] == c);
    }
}

/// An extension holds neither a `.` nor a `?`: it is the start, up to the
/// first `?`, of what follows the last `.` of the file name.
pub proof fn lemma_extension_is_clean(f: Seq<char>)
    ensures
        extension_of(f) matches Some(e) ==> {
            &&& !e.contains('.')
            &&& !e.contains('?')
            &&& e == suffix_after_last(f, '.').take(e.len() as int)
        },
{
    if f.contains('.') {
        let t = suffix_after_last(f, '.');
        lemma_split_at_last(f, '.');
        lemma_prefix_free(t, '?');
        lemma_take_contains(t, prefix_before_first(t, '?').len() as int, '.');
    }
}

/// A file name without a `.` loses each `?` and `&` and keeps its length.
pub proof fn lemma_plain_name_is_sanitized(f: Seq<char>)
    requires
        !f.contains('.'),
    ensures
        extension_of(f) is None,
        file_name_of(f).len() == f.len(),
        !file_name_of(f).contains('?'),
        !file_name_of(f).contains('&'),
{
    let g = file_name_of(f);
    assert(!g.contains('?')) by {
        if g.contains('?') {
            let k = choose|k: int| 0 <= k < g.len() && g[k] == '?';
            assert(g[k] == (if f[k] == '?' || f[k] == '&' { '-' } else { f[k] }));
        }
    }
    assert(!g.contains('&')) by {
        if g.contains('&') {
            let k = choose|k: int| 0 <= k < g.len() && g[k] == '&';
            assert(g[k] == (if f[k] == '?' || f[k] == '&' { '-' } else { f[k] }));
        }
    }
}

/// When what follows the last `.` of `f` is ASCII, the file name, a `.` and
/// that tail give back `f`; when the tail also holds no `?`, the tail is the
/// extension, so the file name, a `.` and the extension give back `f`.
pub proof fn lemma_name_dot_extension(f: Seq<char>)
    requires
        f.contains('.'),
        vstd::utf8::is_ascii_chars(suffix_after_last(f, '.')),
    ensures
        file_name_of(f) + seq!['.'] + suffix_after_last(f, '.') == f,
        !suffix_after_last(f, '.').contains('?') ==> file_name_of(f) + seq!['.']
            + extension_of(f)->0 == f,
{
    let t = suffix_after_last(f, '.');
    lemma_split_at_last(f, '.');
    vstd::utf8::is_ascii_chars_encode_utf8(t);
    assert(crate::text::utf8_len(t) == t.len());
    if !t.contains('?') {
        lemma_prefix_before_first(t, '?', t.len() as int);
        assert(t.take(t.len() as int) =~= t);
    }
}

} // verus!

verus! {

/// The UTF-8 encoding of a character other than `%` holds no `%` byte: a
/// one-byte encoding is the character itself, and every byte of a longer one
/// has its high bit set.
proof fn lemma_scalar_has_no_percent(c: char)
    requires
        c != '%',
    ensures
        !vstd::utf8::encode_scalar(c as u32).contains(37u8),
{
    let v = c as u32;
    vstd::utf8::char_is_scalar(c);
    let e = vstd::utf8::encode_scalar(v);
    if vstd::utf8::has_width_1_encoding(v) {
        assert(v != 37);
        assert(((v & 0x7F) as u8) != 37u8) by (bit_vector)
            requires
                v <= 0x7F,
                v != 37,
        ;
    } else {
        assert(forall|x: u32| #![auto] (0xC0u8 | ((x >> 6) & 0x1F) as u8) != 37u8) by (bit_vector);
        assert(forall|x: u32| #![auto] (0xE0u8 | ((x >> 12) & 0x0F) as u8) != 37u8) by (bit_vector);
        assert(forall|x: u32| #![auto] (0xF0u8 | ((x >> 18) & 0x7) as u8) != 37u8) by (bit_vector);
        assert(forall|x: u32| #![auto] (0x80u8 | (x & 0x3F) as u8) != 37u8) by (bit_vector);
        assert(forall|x: u32| #![auto] (0x80u8 | ((x >> 6) & 0x3F) as u8) != 37u8) by (bit_vector);
        assert(forall|x: u32| #![auto] (0x80u8 | ((x >> 12) & 0x3F) as u8) != 37u8) by (bit_vector);
    }
    if e.contains(37u8) {
        let k = choose|k: int| 0 <= k < e.len() && e[k] == 37u8;
        assert(false);
    }
}

/// The UTF-8 encoding of text without a `%` holds no `%` byte.
proof fn lemma_encoding_has_no_percent(s: Seq<char>)
    requires
        !s.contains('%'),
    ensures
        !vstd::utf8::encode_utf8(s).contains(37u8),
    decreases s.len(),
{
    if s.len() > 0 {
        assert(s[0] != '%');
        lemma_scalar_has_no_percent(s[0]);
        assert(!s.drop_first().contains('%')) by {
            if s.drop_first().contains('%') {
                let k = choose|k: int| 0 <= k < s.len() - 1 && s.drop_first()[k] == '%';
                assert(s[k + 1] == '%');
            }
        }
        lemma_encoding_has_no_percent(s.drop_first());
        let a = vstd::utf8::encode_scalar(s[0] as u32);
        let b = vstd::utf8::encode_utf8(s.drop_first());
        if (a + b).contains(37u8) {
            let k = choose|k: int| 0 <= k < a.len() + b.len() && (a + b)[k] == 37u8;
            if k < a.len() {
                assert(a[k] == 37u8);
            } else {
                assert(b[k - a.len()] == 37u8);
            }
        }
    }
}

/// Bytes without a `%` hold no escape and decode to themselves.
proof fn lemma_no_escape_bytes(b: Seq<u8>)
    requires
        !b.contains(37u8),
    ensures
        escapes_well_formed(b),
        percent_decode(b) == b,
    decreases b.len(),
{
    if b.len() > 0 {
        assert(b[0] != 37u8);
        assert(!b.drop_first().contains(37u8)) by {
            if b.drop_first().contains(37u8) {
                let k = choose|k: int| 0 <= k < b.len() - 1 && b.drop_first()[k] == 37u8;
                assert(b[k + 1] == 37u8);
            }
        }
        lemma_no_escape_bytes(b.drop_first());
        assert(seq![b[0]] + b.drop_first() =~= b);
    } else {
        assert(b =~= Seq::<u8>::empty());
    }
}

/// A URL without a `%` decodes to itself; when it is not blank and does not
/// end in `/` once trimmed, it makes a file link, with no risk of a panic.
pub proof fn lemma_plain_url_decodes_to_itself(url: Seq<char>)
    requires
        !url.contains('%'),
    ensures
        escapes_well_formed(vstd::utf8::encode_utf8(url)),
        decoded(url) == Ok::<Seq<char>, Seq<char>>(url),
        trim(url).len() > 0 && trim(url).last() != '/' ==> link_error(url) is None,
{
    lemma_encoding_has_no_percent(url);
    lemma_no_escape_bytes(vstd::utf8::encode_utf8(url));
    vstd::utf8::encode_utf8_valid_utf8(url);
    vstd::utf8::encode_utf8_decode_utf8(url);
}

/// A file link names a file, never a path: when `FileLink::new` succeeds,
/// neither the file name nor the extension holds a `/`.
pub proof fn lemma_link_names_a_file(url: Seq<char>)
    requires
        link_error(url) is None,
    ensures
        !file_name_of(url_segment(url)).contains('/'),
        extension_of(url_segment(url)) matches Some(e) ==> !e.contains('/'),
{
    let seg = url_segment(url);
    lemma_split_at_last(decoded(url)->Ok_0, '/');
    assert(!seg.contains('/'));
    if seg.contains('.') {
        let t = suffix_after_last(seg, '.');
        lemma_split_at_last(seg, '.');
        assert(!t.contains('/')) by {
            if t.contains('/') {
                let k = choose|k: int| 0 <= k < t.len() && t[k] == '/';
                assert(seg[seg.len() - t.len() + k] == '/');
            }
        }
        lemma_prefix_free(t, '?');
        lemma_take_contains(t, prefix_before_first(t, '?').len() as int, '/');
        let k = crate::text::utf8_len(t) + 1;
        if k <= seg.len() {
            lemma_take_contains(seg, seg.len() - k, '/');
        } else {
            assert(!Seq::<char>::empty().contains('/'));
        }
    } else {
        let g = file_name_of(seg);
        if g.contains('/') {
            let k = choose|k: int| 0 <= k < g.len() && g[k] == '/';
            assert(g[k] == (if seg[k] == '?' || seg[k] == '&' { '-' } else { seg[k] }));
            assert(seg[k] == '/');
        }
    }
}

} // verus!

verus! {

/// A file name has an extension exactly when it holds a `.`.
pub proof fn lemma_extension_iff_dot(f: Seq<char>)
    ensures
        extension_of(f) is Some <==> f.contains('.'),
{
}

/// When `i` is the position of the last `.` of `f`, the extension is the run
/// of characters right after it, free of `?`, that ends at the first `?` or
/// at the end of `f`.
pub proof fn lemma_extension_after_last_dot(f: Seq<char>, i: int)
    requires
        0 <= i < f.len(),
        f[i] == '.',
        forall|j: int| i < j < f.len() ==> f[j] != '.',
    ensures
        extension_of(f) matches Some(e) && {
            &&& i + 1 + e.len() <= f.len()
            &&& e == f.subrange(i + 1, i + 1 + e.len())
            &&& forall|j: int| 0 <= j < e.len() ==> e[j] != '?'
            &&& i + 1 + e.len() == f.len() || f[i + 1 + e.len()] == '?'
        },
{
    assert(f.contains('.'));
    let t = suffix_after_last(f, '.');
    lemma_split_at_last(f, '.');
    let n = f.len();
    let i2 = n - t.len() - 1;
    assert(f[i2] == '.') by {
        assert((f.take(i2) + seq!['.'] + t)[i2] == '.');
    }
    assert(i2 == i) by {
        if i2 < i {
            assert(t[i - i2 - 1] == f[i]) by {
                assert((f.take(i2) + seq!['.'] + t)[i] == t[i - i2 - 1]);
            }
            assert(t.contains('.'));
        } else if i2 > i {
            assert(f[i2] != '.');
        }
    }
    assert(t =~= f.skip(i + 1)) by {
        assert forall|j: int| 0 <= j < t.len() implies t[j] == f[i + 1 + j] by {
            assert((f.take(i2) + seq!['.'] + t)[i + 1 + j] == t[j]);
        }
    }
    let e = prefix_before_first(t, '?');
    lemma_prefix_free(t, '?');
    assert(e =~= f.subrange(i + 1, i + 1 + e.len()));
    assert forall|j: int| 0 <= j < e.len() implies e[j] != '?' by {
        assert(e.contains(e[j]));
    }
}

/// When what follows the last `.` of `f`, at position `i`, is ASCII, the
/// file name is everything before that `.`.
pub proof fn lemma_name_before_last_dot(f: Seq<char>, i: int)
    requires
        0 <= i < f.len(),
        f[i] == '.',
        forall|j: int| i < j < f.len() ==> f[j] != '.',
        forall|j: int| i < j < f.len() ==> (#[trigger] f[j] as u32) <= 0x7f,
    ensures
        file_name_of(f) == f.take(i),
{
    lemma_extension_after_last_dot(f, i);
    let t = suffix_after_last(f, '.');
    lemma_split_at_last(f, '.');
    let n = f.len();
    let i2 = n - t.len() - 1;
    assert((f.take(i2) + seq!['.'] + t)[i2] == '.');
    assert(i2 == i) by {
        if i2 < i {
            assert((f.take(i2) + seq!['.'] + t)[i] == t[i - i2 - 1]);
            assert(t.contains('.'));
        }
    }
    assert forall|j: int| 0 <= j < t.len() implies (#[trigger] t[j] as u32) <= 0x7f by {
        assert((f.take(i2) + seq!['.'] + t)[i + 1 + j] == t[j]);
        assert(f[i + 1 + j] == t[j]);
        assert(i < i + 1 + j < f.len());
    }
    lemma_one_byte_chars(t);
}

/// Characters up to U+007F take one byte each in UTF-8.
proof fn lemma_one_byte_chars(t: Seq<char>)
    requires
        forall|j: int| 0 <= j < t.len() ==> (#[trigger] t[j] as u32) <= 0x7f,
    ensures
        crate::text::utf8_len(t) == t.len(),
    decreases t.len(),
{
    if t.len() > 0 {
        assert((t[0] as u32) <= 0x7f);
        assert forall|j: int| 0 <= j < t.drop_first().len() implies (#[trigger] t.drop_first()[j] as u32)
            <= 0x7f by {
            assert(t.drop_first()[j] == t[j + 1]);
        }
        lemma_one_byte_chars(t.drop_first());
    }
}

/// A file name without a `.` keeps each character but `?` and `&`, which
/// become `-`.
pub proof fn lemma_name_without_dot(f: Seq<char>, j: int)
    requires
        !f.contains('.'),
        0 <= j < f.len(),
    ensures
        file_name_of(f).len() == f.len(),
        f[j] == '?' ==> file_name_of(f)[j] == '-',
        f[j] == '&' ==> file_name_of(f)[j] == '-',
        f[j] != '?' && f[j] != '&' ==> file_name_of(f)[j] == f[j],
{
}

/// The value of each hexadecimal digit: for any byte `x`, its two hex digits
/// (either case for each) form an escape that stands for `x`, and a `+`
/// before a single digit stands for that digit's value.
pub proof fn lemma_hex_escape_value(x: u8, upper_hi: bool, upper_lo: bool)
    ensures
        ({
            let h = (x / 16) as int;
            let l = (x % 16) as int;
            let dh = if h < 10 {
                48 + h
            } else if upper_hi {
                55 + h
            } else {
                87 + h
            };
            let dl = if l < 10 {
                48 + l
            } else if upper_lo {
                55 + l
            } else {
                87 + l
            };
            &&& escape_value(dh as u8, dl as u8) == Some(x)
            &&& escape_value(43u8, dl as u8) == Some(l as u8)
        }),
{
}

/// Only hexadecimal digits, after a digit or a `+`, make an escape.
pub proof fn lemma_escape_needs_hex_digits(b1: u8, b2: u8)
    ensures
        escape_value(b1, b2) is Some ==> {
            &&& (48 <= b2 <= 57 || 97 <= b2 <= 102 || 65 <= b2 <= 70)
            &&& (48 <= b1 <= 57 || 97 <= b1 <= 102 || 65 <= b1 <= 70 || b1 == 43)
        },
        (48 <= b2 <= 57 || 97 <= b2 <= 102 || 65 <= b2 <= 70) && (48 <= b1 <= 57 || 97 <= b1
            <= 102 || 65 <= b1 <= 70 || b1 == 43) ==> escape_value(b1, b2) is Some,
{
}

/// Decoding goes byte by byte from the left: nothing decodes to nothing, a
/// byte other than `%` stays as it is, and a well-formed escape becomes the
/// single byte it stands for, before the rest is decoded.
pub proof fn lemma_percent_decode_steps(b: u8, x: u8, y: u8, rest: Seq<u8>)
    ensures
        percent_decode(Seq::empty()) == Seq::<u8>::empty(),
        b != 37 ==> percent_decode(seq![b] + rest) == seq![b] + percent_decode(rest),
        escape_value(x, y) matches Some(v) ==> percent_decode(seq![37u8, x, y] + rest) == seq![v]
            + percent_decode(rest),
        b != 37 ==> (escapes_well_formed(seq![b] + rest) == escapes_well_formed(rest)),
        escapes_well_formed(seq![37u8, x, y] + rest) == (escape_value(x, y) is Some
            && escapes_well_formed(rest)),
{
    assert((seq![b] + rest).drop_first() =~= rest);
    assert((seq![37u8, x, y] + rest).skip(3) =~= rest);
    assert((seq![37u8, x, y] + rest)[1] == x);
    assert((seq![37u8, x, y] + rest)[2] == y);
}

/// For any byte `x`, `%` followed by the two hex digits of `x` (either case)
/// decodes to `x`, whatever follows.
pub proof fn lemma_escape_decodes_to_its_byte(x: u8, upper_hi: bool, upper_lo: bool, rest: Seq<u8>)
    ensures
        ({
            let h = (x / 16) as int;
            let l = (x % 16) as int;
            let dh = (if h < 10 {
                48 + h
            } else if upper_hi {
                55 + h
            } else {
                87 + h
            }) as u8;
            let dl = (if l < 10 {
                48 + l
            } else if upper_lo {
                55 + l
            } else {
                87 + l
            }) as u8;
            percent_decode(seq![37u8, dh, dl] + rest) == seq![x] + percent_decode(rest)
        }),
{
    let h = (x / 16) as int;
    let l = (x % 16) as int;
    let dh = (if h < 10 {
        48 + h
    } else if upper_hi {
        55 + h
    } else {
        87 + h
    }) as u8;
    let dl = (if l < 10 {
        48 + l
    } else if upper_lo {
        55 + l
    } else {
        87 + l
    }) as u8;
    lemma_hex_escape_value(x, upper_hi, upper_lo);
    lemma_percent_decode_steps(0, dh, dl, rest);
}

} // verus!

verus! {

/// Where the leading white space of `s` ends.
proof fn lemma_trim_start_index(s: Seq<char>) -> (k: int)
    ensures
        0 <= k <= s.len(),
        trim_start(s) == s.skip(k),
        forall|j: int| 0 <= j < k ==> is_white_space(#[trigger] s[j]),
        k < s.len() ==> !is_white_space(s[k]),
    decreases s.len(),
{
    if s.len() > 0 && is_white_space(s[0]) {
        let k1 = lemma_trim_start_index(s.drop_first());
        assert(s.drop_first().skip(k1) =~= s.skip(k1 + 1));
        assert forall|j: int| 0 <= j < k1 + 1 implies is_white_space(#[trigger] s[j]) by {
            if j > 0 {
                assert(s[j] == s.drop_first()[j - 1]);
            }
        }
        k1 + 1
    } else {
        assert(s.skip(0) =~= s);
        0
    }
}

/// Where the trailing white space of `s` starts.
proof fn lemma_trim_end_index(s: Seq<char>) -> (m: int)
    ensures
        0 <= m <= s.len(),
        trim_end(s) == s.take(m),
        forall|j: int| m <= j < s.len() ==> is_white_space(#[trigger] s[j]),
        m > 0 ==> !is_white_space(s[m - 1]),
    decreases s.len(),
{
    if s.len() > 0 && is_white_space(s.last()) {
        let m1 = lemma_trim_end_index(s.drop_last());
        assert(s.drop_last().take(m1) =~= s.take(m1));
        assert forall|j: int| m1 <= j < s.len() implies is_white_space(#[trigger] s[j]) by {
            if j < s.len() - 1 {
                assert(s[j] == s.drop_last()[j]);
            }
        }
        m1
    } else {
        assert(s.take(s.len() as int) =~= s);
        s.len() as int
    }
}

/// Trimming keeps one contiguous run of `s`: all that precedes it and all
/// that follows it is white space, and the run neither starts nor ends with
/// white space.
pub proof fn lemma_trim_keeps_the_middle(s: Seq<char>)
    ensures
        exists|lo: int|
            #![trigger s.subrange(lo, lo + trim(s).len())]
            {
                &&& 0 <= lo
                &&& lo + trim(s).len() <= s.len()
                &&& trim(s) == s.subrange(lo, lo + trim(s).len())
                &&& forall|j: int| 0 <= j < lo ==> is_white_space(#[trigger] s[j])
                &&& forall|j: int|
                    lo + trim(s).len() <= j < s.len() ==> is_white_space(#[trigger] s[j])
            },
        trim(s).len() > 0 ==> !is_white_space(trim(s)[0]) && !is_white_space(trim(s).last()),
{
    let k = lemma_trim_start_index(s);
    let t = s.skip(k);
    let m = lemma_trim_end_index(t);
    assert(trim(s) == t.take(m));
    assert(t.take(m) =~= s.subrange(k, k + m));
    assert forall|j: int| k + m <= j < s.len() implies is_white_space(#[trigger] s[j]) by {
        assert(s[j] == t[j - k]);
    }
    if m > 0 {
        assert(trim(s)[0] == s[k]);
        assert(trim(s).last() == t[m - 1]);
    }
    assert(trim(s).len() == m);
}

} // verus!

//! String helpers shared by the lexers: byte-offset slicing, whitespace
//! trimming and the UTF-8 facts that make byte offsets safe to cut at.

use vstd::prelude::*;
use vstd::string::*;
use vstd::utf8::*;

verus! {

/// Whether `c` has the Unicode `White_Space` property, as `char::is_whitespace`
/// reports it.
pub uninterp spec fn white_space(c: char) -> bool;

/// A byte offset at which a UTF-8 buffer may be cut: the end, or the start of
/// a character.
pub open spec fn cut_ok(b: Seq<u8>, i: int) -> bool {
    i == b.len() || (0 <= i < b.len() && !is_continuation_byte(b[i]))
}

/// The characters that a byte range of a buffer decodes to.
pub open spec fn chars_of(b: Seq<u8>) -> Seq<char> {
    decode_utf8(b)
}

/// Whether every character of `s` is whitespace.
pub open spec fn blank(s: Seq<char>) -> bool {
    forall|i: int| 0 <= i < s.len() ==> white_space(#[trigger] s[i])
}

/// Leading whitespace removed.
pub open spec fn trim_start_spec(s: Seq<char>) -> Seq<char>
    decreases s.len(),
{
    if s.len() > 0 && white_space(s[0]) {
        trim_start_spec(s.drop_first())
    } else {
        s
    }
}

/// Trailing whitespace removed.
pub open spec fn trim_end_spec(s: Seq<char>) -> Seq<char>
    decreases s.len(),
{
    if s.len() > 0 && white_space(s.last()) {
        trim_end_spec(s.drop_last())
    } else {
        s
    }
}

/// Leading and trailing whitespace removed.
pub open spec fn trim_spec(s: Seq<char>) -> Seq<char> {
    trim_end_spec(trim_start_spec(s))
}

/// The characters of `s` before its first whitespace character.
pub open spec fn word_spec(s: Seq<char>) -> Seq<char>
    decreases s.len(),
{
    if s.len() == 0 || white_space(s[0]) {
        Seq::empty()
    } else {
        seq![s[0]] + word_spec(s.drop_first())
    }
}

pub proof fn lemma_trim_start_shape(s: Seq<char>)
    ensures
        trim_start_spec(s).len() <= s.len(),
        trim_start_spec(s) == s.skip(s.len() - trim_start_spec(s).len()),
        blank(s.take(s.len() - trim_start_spec(s).len())),
        trim_start_spec(s).len() > 0 ==> !white_space(trim_start_spec(s)[0]),
    decreases s.len(),
{
    if s.len() > 0 && white_space(s[0]) {
        lemma_trim_start_shape(s.drop_first());
        let t = trim_start_spec(s.drop_first());
        assert(s.drop_first().skip(s.drop_first().len() - t.len()) =~= s.skip(s.len() - t.len()));
        let k = s.len() - t.len();
        assert forall|i: int| 0 <= i < k implies white_space(#[trigger] s.take(k)[i]) by {
            if i > 0 {
                assert(s.take(k)[i] == s.drop_first().take(k - 1)[i - 1]);
            }
        }
    } else {
        assert(s.skip(0) =~= s);
    }
}

pub proof fn lemma_trim_end_shape(s: Seq<char>)
    ensures
        trim_end_spec(s).len() <= s.len(),
        trim_end_spec(s) == s.take(trim_end_spec(s).len() as int),
        blank(s.skip(trim_end_spec(s).len() as int)),
        trim_end_spec(s).len() > 0 ==> !white_space(trim_end_spec(s).last()),
    decreases s.len(),
{
    if s.len() > 0 && white_space(s.last()) {
        lemma_trim_end_shape(s.drop_last());
        let t = trim_end_spec(s.drop_last());
        assert(s.drop_last().take(t.len() as int) =~= s.take(t.len() as int));
        let k = t.len() as int;
        assert forall|i: int| 0 <= i < s.len() - k implies white_space(#[trigger] s.skip(k)[i]) by {
            if i < s.len() - k - 1 {
                assert(s.skip(k)[i] == s.drop_last().skip(k)[i]);
            }
        }
    } else {
        assert(s.take(s.len() as int) =~= s);
    }
}

/// A suffix of `s` that drops only whitespace and starts with a non-white
/// character (or is empty) is `trim_start_spec(s)`.
pub proof fn lemma_trim_start_unique(s: Seq<char>, k: int)
    requires
        0 <= k <= s.len(),
        blank(s.take(k)),
        k < s.len() ==> !white_space(s[k]),
    ensures
        trim_start_spec(s) == s.skip(k),
    decreases s.len(),
{
    if k == 0 {
        assert(s.skip(0) =~= s);
    } else {
        assert(white_space(s.take(k)[0]));
        assert forall|i: int| 0 <= i < k - 1 implies white_space(
            #[trigger] s.drop_first().take(k - 1)[i],
        ) by {
            assert(s.drop_first().take(k - 1)[i] == s.take(k)[i + 1]);
        }
        lemma_trim_start_unique(s.drop_first(), k - 1);
        assert(s.drop_first().skip(k - 1) =~= s.skip(k));
    }
}

/// A prefix of `s` that drops only whitespace and ends with a non-white
/// character (or is empty) is `trim_end_spec(s)`.
pub proof fn lemma_trim_end_unique(s: Seq<char>, k: int)
    requires
        0 <= k <= s.len(),
        blank(s.skip(k)),
        k > 0 ==> !white_space(s[k - 1]),
    ensures
        trim_end_spec(s) == s.take(k),
    decreases s.len(),
{
    if k == s.len() {
        assert(s.take(k) =~= s);
    } else {
        assert(white_space(s.skip(k)[s.len() - k - 1]));
        assert forall|i: int| 0 <= i < s.len() - 1 - k implies white_space(
            #[trigger] s.drop_last().skip(k)[i],
        ) by {
            assert(s.drop_last().skip(k)[i] == s.skip(k)[i]);
        }
        lemma_trim_end_unique(s.drop_last(), k);
        assert(s.drop_last().take(k) =~= s.take(k));
    }
}

pub proof fn lemma_word_unique(s: Seq<char>, k: int)
    requires
        0 <= k <= s.len(),
        forall|i: int| 0 <= i < k ==> !white_space(#[trigger] s[i]),
        k < s.len() ==> white_space(s[k]),
    ensures
        word_spec(s) == s.take(k),
    decreases s.len(),
{
    if k == 0 {
        assert(s.take(0) =~= Seq::<char>::empty());
    } else {
        assert forall|i: int| 0 <= i < k - 1 implies !white_space(#[trigger] s.drop_first()[i]) by {
            assert(s.drop_first()[i] == s[i + 1]);
        }
        lemma_word_unique(s.drop_first(), k - 1);
        assert(seq![s[0]] + s.drop_first().take(k - 1) =~= s.take(k));
    }
}

/// Relies on `str::trim_start`: it removes the leading characters that have
/// the `White_Space` property and returns the rest of the same string.
#[verifier::external_body]
pub(crate) fn trim_start(s: &str) -> (r: &str)
    ensures
        r@.len() <= s@.len(),
        r@ == s@.skip(s@.len() - r@.len()),
        forall|i: int| 0 <= i < s@.len() - r@.len() ==> white_space(#[trigger] s@[i]),
        r@.len() > 0 ==> !white_space(r@[0]),
{
    s.trim_start()
}

/// Relies on `str::trim_end`: it removes the trailing characters that have
/// the `White_Space` property and returns the rest of the same string.
#[verifier::external_body]
pub(crate) fn trim_end(s: &str) -> (r: &str)
    ensures
        r@.len() <= s@.len(),
        r@ == s@.take(r@.len() as int),
        forall|i: int| r@.len() <= i < s@.len() ==> white_space(#[trigger] s@[i]),
        r@.len() > 0 ==> !white_space(r@.last()),
{
    s.trim_end()
}

/// Relies on `str::split_once` with `char::is_whitespace` as the pattern: the
/// part before the first whitespace character, or the whole string if there
/// is none.
#[verifier::external_body]
pub(crate) fn leading_word(s: &str) -> (r: &str)
    ensures
        r@.len() <= s@.len(),
        r@ == s@.take(r@.len() as int),
        forall|i: int| 0 <= i < r@.len() ==> !white_space(#[trigger] s@[i]),
        r@.len() < s@.len() ==> white_space(s@[r@.len() as int]),
{
    s.split_once(char::is_whitespace).map_or(s, |p| p.0)
}

pub proof fn lemma_encode_concat(a: Seq<char>, b: Seq<char>)
    ensures
        encode_utf8(a + b) == encode_utf8(a) + encode_utf8(b),
    decreases a.len(),
{
    if a.len() == 0 {
        assert(a + b =~= b);
        assert(encode_utf8(a) + encode_utf8(b) =~= encode_utf8(b));
    } else {
        lemma_encode_concat(a.drop_first(), b);
        assert((a + b).drop_first() =~= a.drop_first() + b);
        assert((a + b)[0] == a[0]);
        assert(encode_utf8(a + b) == encode_scalar(a[0] as u32) + encode_utf8(a.drop_first() + b));
        assert(encode_utf8(a + b) =~= encode_utf8(a) + encode_utf8(b));
    }
}

/// The bytes of a string decode back to its characters.
pub proof fn lemma_str_chars(s: &str)
    ensures
        valid_utf8(s.spec_bytes()),
        chars_of(s.spec_bytes()) == s@,
{
    encode_utf8_valid_utf8(s@);
    encode_utf8_decode_utf8(s@);
}

/// Two strings hold the same characters exactly when they hold the same bytes.
pub proof fn lemma_str_eq_bytes(a: &str, b: &str)
    ensures
        a@ == b@ <==> a.spec_bytes() == b.spec_bytes(),
{
    lemma_str_chars(a);
    lemma_str_chars(b);
}

/// The byte length of a prefix of characters.
pub open spec fn prefix_bytes(s: Seq<char>, k: int) -> int {
    encode_utf8(s.take(k)).len() as int
}

/// Removing a prefix of characters removes the matching prefix of bytes.
pub proof fn lemma_split_bytes(s: Seq<char>, k: int)
    requires
        0 <= k <= s.len(),
    ensures
        encode_utf8(s) == encode_utf8(s.take(k)) + encode_utf8(s.skip(k)),
        encode_utf8(s.skip(k)) == encode_utf8(s).skip(prefix_bytes(s, k)),
        encode_utf8(s.take(k)) == encode_utf8(s).take(prefix_bytes(s, k)),
        cut_ok(encode_utf8(s), prefix_bytes(s, k)),
{
    assert(s =~= s.take(k) + s.skip(k));
    lemma_encode_concat(s.take(k), s.skip(k));
    let b = encode_utf8(s);
    let p = prefix_bytes(s, k);
    assert(encode_utf8(s.skip(k)) =~= b.skip(p));
    assert(encode_utf8(s.take(k)) =~= b.take(p));
    encode_utf8_valid_utf8(s.skip(k));
    if p < b.len() {
        let rest = encode_utf8(s.skip(k));
        assert(rest.len() > 0);
        assert(valid_first_scalar(rest));
        assert(rest[0] == b[p]);
    }
}

/// In valid UTF-8, the offset after an ASCII byte is a character boundary.
pub proof fn lemma_cut_after_ascii(b: Seq<u8>, i: int)
    requires
        valid_utf8(b),
        0 <= i < b.len(),
        b[i] < 0x80,
    ensures
        cut_ok(b, i + 1),
{
    if i + 1 < b.len() {
        is_char_boundary_iff_not_is_continuation_byte(b, i);
        valid_utf8_split(b, i);
        let s = b.subrange(i, b.len() as int);
        assert(s[0] == b[i]);
        assert(valid_first_scalar(s));
        assert(length_of_first_scalar(s) == 1);
        let t = pop_first_scalar(s);
        assert(t =~= b.subrange(i + 1, b.len() as int));
        assert(valid_utf8(t));
        assert(t.len() > 0);
        assert(valid_first_scalar(t));
        assert(t[0] == b[i + 1]);
    }
}

/// The start of a valid UTF-8 buffer is a cut point.
pub proof fn lemma_cut_start(b: Seq<u8>)
    requires
        valid_utf8(b),
    ensures
        cut_ok(b, 0),
{
    if b.len() > 0 {
        assert(valid_first_scalar(b));
    }
}

/// A cut point of a buffer is a boundary in the sense vstd uses.
pub proof fn lemma_cut_boundary(b: Seq<u8>, i: int)
    requires
        valid_utf8(b),
        cut_ok(b, i),
    ensures
        is_char_boundary(b, i),
{
    if i == b.len() {
        is_char_boundary_start_end_of_seq(b);
    } else {
        is_char_boundary_iff_not_is_continuation_byte(b, i);
    }
}

/// The bytes `a..b` of `s`, as a string slice.
pub fn slice<'a>(s: &'a str, a: usize, b: usize) -> (r: &'a str)
    requires
        a <= b <= s.spec_bytes().len(),
        cut_ok(s.spec_bytes(), a as int),
        cut_ok(s.spec_bytes(), b as int),
    ensures
        r.spec_bytes() == s.spec_bytes().subrange(a as int, b as int),
{
    let ghost bytes = s.spec_bytes();
    proof {
        lemma_str_chars(s);
        lemma_cut_boundary(bytes, b as int);
    }
    let (left, _) = s.split_at(b);
    proof {
        let lb = left.spec_bytes();
        lemma_str_chars(left);
        assert(lb =~= bytes.subrange(0, b as int));
        if a < b {
            assert(lb[a as int] == bytes[a as int]);
        }
        assert(cut_ok(lb, a as int));
        lemma_cut_boundary(lb, a as int);
    }
    let (_, r) = left.split_at(a);
    proof {
        assert(r.spec_bytes() =~= bytes.subrange(a as int, b as int));
    }
    r
}

/// `s` without leading whitespace, as a suffix of its bytes.
pub fn trim_left(s: &str) -> (r: &str)
    ensures
        r@ == trim_start_spec(s@),
        r.spec_bytes() == s.spec_bytes().skip(s.spec_bytes().len() - r.spec_bytes().len()),
        r.spec_bytes().len() <= s.spec_bytes().len(),
        cut_ok(s.spec_bytes(), s.spec_bytes().len() - r.spec_bytes().len()),
{
    let r = trim_start(s);
    proof {
        let k = s@.len() - r@.len();
        assert forall|i: int| 0 <= i < k implies white_space(#[trigger] s@.take(k)[i]) by {
            assert(s@.take(k)[i] == s@[i]);
        }
        lemma_trim_start_unique(s@, k);
        lemma_split_bytes(s@, k);
    }
    r
}

/// `s` without trailing whitespace, as a prefix of its bytes.
pub fn trim_right(s: &str) -> (r: &str)
    ensures
        r@ == trim_end_spec(s@),
        r.spec_bytes() == s.spec_bytes().take(r.spec_bytes().len() as int),
        r.spec_bytes().len() <= s.spec_bytes().len(),
        cut_ok(s.spec_bytes(), r.spec_bytes().len() as int),
{
    let r = trim_end(s);
    proof {
        let k = r@.len() as int;
        assert forall|i: int| 0 <= i < s@.len() - k implies white_space(#[trigger] s@.skip(k)[i]) by {
            assert(s@.skip(k)[i] == s@[k + i]);
        }
        if k > 0 {
            assert(s@[k - 1] == r@.last());
        }
        lemma_trim_end_unique(s@, k);
        lemma_split_bytes(s@, k);
    }
    r
}

/// `s` without leading and trailing whitespace.
pub fn trim(s: &str) -> (r: &str)
    ensures
        r@ == trim_spec(s@),
{
    trim_right(trim_left(s))
}

/// Whether two strings hold the same characters.
pub fn str_eq(a: &str, b: &str) -> (r: bool)
    ensures
        r == (a@ == b@),
{
    proof {
        lemma_str_eq_bytes(a, b);
    }
    let x = a.as_bytes();
    let y = b.as_bytes();
    if x.len() != y.len() {
        return false;
    }
    let mut i: usize = 0;
    while i < x.len()
        invariant
            x@ == a.spec_bytes(),
            y@ == b.spec_bytes(),
            x@.len() == y@.len(),
            0 <= i <= x@.len(),
            forall|j: int| 0 <= j < i ==> x@[j] == y@[j],
        decreases x@.len() - i,
    {
        if x[i] != y[i] {
            return false;
        }
        i = i + 1;
    }
    proof {
        assert(x@ =~= y@);
    }
    true
}

} // verus!

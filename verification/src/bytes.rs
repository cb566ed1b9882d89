//! How text counts in bytes of UTF-8: widths, offsets and byte limits.

use vstd::prelude::*;
use vstd::utf8::*;

verus! {

/// How many bytes of UTF-8 `c` takes.
pub open spec fn width_of(c: char) -> nat {
    encode_scalar(c as u32).len()
}

/// How many bytes of UTF-8 `s` takes.
pub open spec fn byte_len(s: Seq<char>) -> nat
    decreases s.len(),
{
    if s.len() == 0 {
        0
    } else {
        width_of(s[0]) + byte_len(s.skip(1))
    }
}

/// `byte_len` is the length of the encoded text.
pub proof fn lemma_byte_len(s: Seq<char>)
    ensures
        byte_len(s) == encode_utf8(s).len(),
    decreases s.len(),
{
    if s.len() > 0 {
        assert(s.skip(1) =~= s.drop_first());
        lemma_byte_len(s.skip(1));
    }
}

/// The bytes of two texts put together are the bytes of both.
pub proof fn lemma_byte_len_concat(a: Seq<char>, b: Seq<char>)
    ensures
        byte_len(a + b) == byte_len(a) + byte_len(b),
    decreases a.len(),
{
    if a.len() == 0 {
        assert(a + b =~= b);
    } else {
        assert((a + b).skip(1) =~= a.skip(1) + b);
        lemma_byte_len_concat(a.skip(1), b);
    }
}

/// A text has at most as many characters as bytes.
pub proof fn lemma_byte_len_chars(s: Seq<char>)
    ensures
        s.len() <= byte_len(s) <= 4 * s.len(),
    decreases s.len(),
{
    if s.len() > 0 {
        lemma_byte_len_chars(s.skip(1));
    }
}

/// How many bytes of UTF-8 `c` takes.
pub fn width(c: char) -> (r: usize)
    ensures
        r == width_of(c),
        1 <= r <= 4,
{
    let v: u32 = c as u32;
    if v <= 0x7f {
        1
    } else if v <= 0x7ff {
        2
    } else if v <= 0xffff {
        3
    } else {
        4
    }
}

/// How many characters of `s` fit into `n` bytes, from the start.
pub open spec fn fitting(s: Seq<char>, n: int) -> int
    decreases s.len(),
{
    if s.len() == 0 || width_of(s[0]) > n {
        0
    } else {
        1 + fitting(s.skip(1), n - width_of(s[0]))
    }
}

/// The longest prefix of `s` of at most `n` bytes.
pub open spec fn byte_prefix(s: Seq<char>, n: int) -> Seq<char> {
    s.take(fitting(s, n))
}

/// `fitting` is the largest number of characters that keep within `n` bytes.
pub proof fn lemma_fitting(s: Seq<char>, n: int)
    requires
        0 <= n,
    ensures
        0 <= fitting(s, n) <= s.len(),
        byte_len(byte_prefix(s, n)) <= n,
        forall|k: int| fitting(s, n) < k <= s.len() ==> byte_len(#[trigger] s.take(k)) > n,
    decreases s.len(),
{
    if s.len() == 0 {
        assert(byte_prefix(s, n) =~= Seq::<char>::empty());
    } else if width_of(s[0]) > n {
        assert(byte_prefix(s, n) =~= Seq::<char>::empty());
        assert forall|k: int| fitting(s, n) < k <= s.len() implies byte_len(#[trigger] s.take(k)) > n by {
            assert(s.take(k)[0] == s[0]);
        }
    } else {
        let t = s.skip(1);
        let m = n - width_of(s[0]);
        lemma_fitting(t, m);
        assert(byte_prefix(s, n).skip(1) =~= byte_prefix(t, m));
        assert forall|k: int| fitting(s, n) < k <= s.len() implies byte_len(#[trigger] s.take(k)) > n by {
            assert(s.take(k).skip(1) =~= t.take(k - 1));
            assert(s.take(k)[0] == s[0]);
        }
    }
}

/// A text of at most `n` bytes fits whole.
pub proof fn lemma_fits_whole(s: Seq<char>, n: int)
    requires
        byte_len(s) <= n,
    ensures
        fitting(s, n) == s.len(),
        byte_prefix(s, n) == s,
    decreases s.len(),
{
    if s.len() > 0 {
        lemma_fits_whole(s.skip(1), n - width_of(s[0]));
    }
    assert(s.take(s.len() as int) =~= s);
}

/// How many characters of `s` fit into `n` bytes, from the start.
pub fn fit(s: &[char], n: usize) -> (r: usize)
    ensures
        r == fitting(s@, n as int),
        r <= s@.len(),
{
    let mut i: usize = 0;
    let mut left: usize = n;
    proof {
        assert(s@.skip(0) =~= s@);
    }
    while i < s.len() && width(s[i]) <= left
        invariant
            i <= s.len(),
            i + fitting(s@.skip(i as int), left as int) == fitting(s@, n as int),
        decreases s.len() - i,
    {
        proof {
            assert(s@.skip(i as int).skip(1) =~= s@.skip(i + 1));
        }
        left -= width(s[i]);
        i += 1;
    }
    i
}

/// Where the longest suffix of `s` of at most `n` bytes starts.
pub open spec fn suffix_start(s: Seq<char>, n: int) -> int
    decreases s.len(),
{
    if s.len() == 0 || byte_len(s) <= n {
        0
    } else {
        1 + suffix_start(s.skip(1), n)
    }
}

/// The longest suffix of `s` of at most `n` bytes.
pub open spec fn byte_suffix(s: Seq<char>, n: int) -> Seq<char> {
    s.skip(suffix_start(s, n))
}

/// `byte_suffix` keeps within `n` bytes, and no longer suffix does.
pub proof fn lemma_byte_suffix(s: Seq<char>, n: int)
    requires
        0 <= n,
    ensures
        0 <= suffix_start(s, n) <= s.len(),
        byte_len(byte_suffix(s, n)) <= n,
        forall|k: int| 0 <= k < suffix_start(s, n) ==> byte_len(#[trigger] s.skip(k)) > n,
    decreases s.len(),
{
    assert(s.skip(0) =~= s);
    if s.len() > 0 && byte_len(s) > n {
        let t = s.skip(1);
        lemma_byte_suffix(t, n);
        assert(byte_suffix(s, n) =~= byte_suffix(t, n));
        assert forall|k: int| 0 <= k < suffix_start(s, n) implies byte_len(
            #[trigger] s.skip(k),
        ) > n by {
            if k > 0 {
                assert(t.skip(k - 1) =~= s.skip(k));
            }
        }
    }
}

/// Where the longest suffix of `s` of at most `n` bytes starts.
pub fn suffix_fit(s: &[char], n: usize) -> (r: usize)
    ensures
        r == suffix_start(s@, n as int),
        r <= s@.len(),
{
    let mut i: usize = 0;
    proof {
        assert(s@.skip(0) =~= s@);
        lemma_byte_suffix(s@, n as int);
    }
    while i < s.len() && !within(vstd::slice::slice_subrange(s, i, s.len()), n)
        invariant
            i <= s@.len(),
            i + suffix_start(s@.skip(i as int), n as int) == suffix_start(s@, n as int),
        decreases s@.len() - i,
    {
        proof {
            assert(s@.subrange(i as int, s@.len() as int) =~= s@.skip(i as int));
            assert(s@.skip(i as int).skip(1) =~= s@.skip(i + 1));
        }
        i += 1;
    }
    proof {
        assert(s@.subrange(i as int, s@.len() as int) =~= s@.skip(i as int));
    }
    i
}

/// Whether `s` takes at most `n` bytes.
pub fn within(s: &[char], n: usize) -> (r: bool)
    ensures
        r == (byte_len(s@) <= n),
{
    let k = fit(s, n);
    proof {
        lemma_fitting(s@, n as int);
        assert(s@.take(s@.len() as int) =~= s@);
        if byte_len(s@) <= n {
            lemma_fits_whole(s@, n as int);
        }
    }
    k == s.len()
}

/// The index of the character that starts at byte `b` of `s`; the end of `s`
/// counts as one.
pub open spec fn char_at_byte(s: Seq<char>, b: int) -> Option<int>
    decreases s.len(),
{
    if b == 0 {
        Some(0)
    } else if b < 0 || s.len() == 0 {
        None
    } else {
        match char_at_byte(s.skip(1), b - width_of(s[0])) {
            Some(i) => Some(i + 1),
            None => None,
        }
    }
}

/// The text from byte `a` up to byte `b` of `s`; empty where one of the two
/// does not lie between two characters.
pub open spec fn byte_slice(s: Seq<char>, a: int, b: int) -> Seq<char> {
    match (char_at_byte(s, a), char_at_byte(s, b)) {
        (Some(i), Some(j)) => if i <= j {
            s.subrange(i, j)
        } else {
            Seq::empty()
        },
        _ => Seq::empty(),
    }
}

/// The index of the character that starts at byte `b` of `s`.
pub fn find_byte(s: &[char], b: usize) -> (r: Option<usize>)
    ensures
        match r {
            Some(i) => char_at_byte(s@, b as int) == Some(i as int) && i <= s@.len(),
            None => char_at_byte(s@, b as int) is None,
        },
{
    let mut i: usize = 0;
    let mut left: usize = b;
    proof {
        assert(s@.skip(0) =~= s@);
    }
    while i < s.len() && left > 0
        invariant
            i <= s.len(),
            char_at_byte(s@, b as int) == (match char_at_byte(s@.skip(i as int), left as int) {
                Some(k) => Some(k + i),
                None => None,
            }),
        decreases s.len() - i,
    {
        let w = width(s[i]);
        proof {
            assert(s@.skip(i as int).skip(1) =~= s@.skip(i + 1));
        }
        if w > left {
            proof {
                assert(char_at_byte(s@.skip(i + 1), left - w) is None);
            }
            return None;
        }
        left -= w;
        i += 1;
    }
    if left == 0 {
        Some(i)
    } else {
        None
    }
}

/// The characters of `s` from byte `a` up to byte `b`.
pub fn slice_bytes(s: &[char], a: usize, b: usize) -> (r: &[char])
    ensures
        r@ == byte_slice(s@, a as int, b as int),
{
    match (find_byte(s, a), find_byte(s, b)) {
        (Some(i), Some(j)) if i <= j => vstd::slice::slice_subrange(s, i, j),
        _ => {
            let r = vstd::slice::slice_subrange(s, 0, 0);
            proof {
                assert(r@ =~= Seq::<char>::empty());
            }
            r
        },
    }
}

/// What `String::from_utf8_lossy` makes of bytes.
pub uninterp spec fn utf8_lossy(bytes: Seq<u8>) -> Seq<char>;

/// `String::from_utf8_lossy`: the text that the bytes encode, with
/// replacement characters for what is not UTF-8. The text is a function of
/// the bytes, and bytes that are UTF-8 throughout are decoded as they are.
#[verifier::external_body]
pub(crate) fn lossy(bytes: &[u8]) -> (r: String)
    ensures
        r@ == utf8_lossy(bytes@),
        valid_utf8(bytes@) ==> r@ == decode_utf8(bytes@),
{
    String::from_utf8_lossy(bytes).into_owned()
}

/// The bytes behind those of `a`, as many as `m` takes, are those of `m`.
pub proof fn slices_read_back(a: Seq<char>, m: Seq<char>, b: Seq<char>)
    ensures
        byte_slice(a + m + b, byte_len(a) as int, byte_len(a + m) as int) == m,
{
    let s = a + m + b;
    assert(a + m + b =~= a + (m + b));
    lemma_char_at(a, m + b);
    lemma_char_at(a + m, b);
    assert(s.subrange(a.len() as int, (a + m).len() as int) =~= m);
}

proof fn lemma_char_at(a: Seq<char>, b: Seq<char>)
    ensures
        char_at_byte(a + b, byte_len(a) as int) == Some(a.len() as int),
    decreases a.len(),
{
    if a.len() > 0 {
        assert((a + b).skip(1) =~= a.skip(1) + b);
        assert((a + b)[0] == a[0]);
        lemma_char_at(a.skip(1), b);
        lemma_byte_len_chars(a);
        assert(byte_len(a) - width_of((a + b)[0]) == byte_len(a.skip(1)));
    }
}

} // verus!

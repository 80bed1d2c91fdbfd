//! Text as a sequence of characters, measured in UTF-8 bytes.
//!
//! Patterns and positions are stated over `Seq<char>`, while slices of a
//! `&str` are cut at byte offsets. This module relates the two: the byte
//! length of a run of characters, and the slices that begin or end after a
//! given number of characters.
use vstd::prelude::*;
use vstd::string::*;
use vstd::utf8::*;

verus! {

/// Number of bytes that the UTF-8 encoding of `c` takes.
pub open spec fn char_width(c: char) -> nat {
    encode_scalar(c as u32).len()
}

/// Number of bytes that the UTF-8 encoding of `s` takes.
pub open spec fn utf8_len(s: Seq<char>) -> nat {
    encode_utf8(s).len()
}

/// Every character takes between one and four bytes.
pub proof fn lemma_char_width_bounds(c: char)
    ensures
        1 <= char_width(c) <= 4,
{
}

/// The encoding of a concatenation is the concatenation of the encodings.
pub proof fn lemma_encode_concat(a: Seq<char>, b: Seq<char>)
    ensures
        encode_utf8(a + b) == encode_utf8(a) + encode_utf8(b),
        utf8_len(a + b) == utf8_len(a) + utf8_len(b),
    decreases a.len(),
{
    if a.len() == 0 {
        assert(a + b =~= b);
        assert(encode_utf8(a) + encode_utf8(b) =~= encode_utf8(b));
    } else {
        lemma_encode_concat(a.drop_first(), b);
        assert((a + b).drop_first() =~= a.drop_first() + b);
        assert((a + b)[0] == a[0]);
        assert(encode_utf8(a + b) =~= encode_utf8(a) + encode_utf8(b));
    }
}

/// A single character is encoded on its own width.
pub proof fn lemma_utf8_len_single(c: char)
    ensures
        utf8_len(seq![c]) == char_width(c),
{
    let s = seq![c];
    assert(s.drop_first() =~= Seq::<char>::empty());
    assert(encode_utf8(s.drop_first()) =~= Seq::<u8>::empty());
    assert(encode_utf8(s) =~= encode_scalar(c as u32));
}

/// A text takes at least one byte and at most four bytes per character.
pub proof fn lemma_utf8_len_bounds(s: Seq<char>)
    ensures
        s.len() <= utf8_len(s) <= 4 * s.len(),
    decreases s.len(),
{
    if s.len() > 0 {
        lemma_utf8_len_bounds(s.drop_first());
        lemma_char_width_bounds(s[0]);
    }
}

/// The first `k` characters and the rest share the bytes of the whole text.
pub proof fn lemma_utf8_split(s: Seq<char>, k: int)
    requires
        0 <= k <= s.len(),
    ensures
        utf8_len(s.take(k)) + utf8_len(s.skip(k)) == utf8_len(s),
        encode_utf8(s).subrange(0, utf8_len(s.take(k)) as int) == encode_utf8(s.take(k)),
        encode_utf8(s).subrange(utf8_len(s.take(k)) as int, utf8_len(s) as int) == encode_utf8(
            s.skip(k),
        ),
{
    assert(s =~= s.take(k) + s.skip(k));
    lemma_encode_concat(s.take(k), s.skip(k));
    let a = encode_utf8(s.take(k));
    let b = encode_utf8(s.skip(k));
    assert((a + b).subrange(0, a.len() as int) =~= a);
    assert((a + b).subrange(a.len() as int, (a + b).len() as int) =~= b);
}

/// Longer prefixes take more bytes.
pub proof fn lemma_utf8_take_monotonic(s: Seq<char>, j: int, k: int)
    requires
        0 <= j <= k <= s.len(),
    ensures
        utf8_len(s.take(j)) + (k - j) <= utf8_len(s.take(k)),
        utf8_len(s.take(k)) <= utf8_len(s),
{
    let t = s.take(k);
    lemma_utf8_split(t, j);
    assert(t.take(j) =~= s.take(j));
    lemma_utf8_len_bounds(t.skip(j));
    lemma_utf8_split(s, k);
}

/// The byte offset that follows `k` characters is a character boundary.
pub proof fn lemma_char_boundary(s: Seq<char>, k: int)
    requires
        0 <= k <= s.len(),
    ensures
        is_char_boundary(encode_utf8(s), utf8_len(s.take(k)) as int),
    decreases k,
{
    let bytes = encode_utf8(s);
    encode_utf8_valid_utf8(s);
    if k == 0 {
        assert(s.take(0) =~= Seq::<char>::empty());
    } else {
        let rest = s.drop_first();
        encode_utf8_first_scalar(s);
        assert(pop_first_scalar(bytes) =~= encode_utf8(rest));
        lemma_char_boundary(rest, k - 1);
        assert(s.take(k) =~= seq![s[0]] + rest.take(k - 1));
        lemma_encode_concat(seq![s[0]], rest.take(k - 1));
        lemma_utf8_len_single(s[0]);
        lemma_char_width_bounds(s[0]);
        lemma_utf8_take_monotonic(s, k, k);
    }
}

/// The empty prefix takes no byte, and the first character its own width.
pub proof fn lemma_utf8_take_first(s: Seq<char>)
    ensures
        utf8_len(s.take(0)) == 0,
        s.len() > 0 ==> utf8_len(s.take(1)) == char_width(s[0]),
{
    assert(s.take(0) =~= Seq::<char>::empty());
    if s.len() > 0 {
        assert(s.take(1) =~= seq![s[0]]);
        lemma_utf8_len_single(s[0]);
    }
}

/// The bytes of `k + j` characters are those of the first `k` and of the
/// `j` that follow them.
pub proof fn lemma_utf8_take_add(s: Seq<char>, k: int, j: int)
    requires
        0 <= k,
        0 <= j,
        k + j <= s.len(),
    ensures
        utf8_len(s.take(k + j)) == utf8_len(s.take(k)) + utf8_len(s.skip(k).take(j)),
        s.skip(k).skip(j) == s.skip(k + j),
        utf8_len(s.take(k + j)) <= utf8_len(s),
{
    assert(s.take(k + j) =~= s.take(k) + s.skip(k).take(j));
    lemma_encode_concat(s.take(k), s.skip(k).take(j));
    assert(s.skip(k).skip(j) =~= s.skip(k + j));
    lemma_utf8_take_monotonic(s, k + j, k + j);
}

/// Two texts with the same encoding are the same text.
pub proof fn lemma_encode_injective(a: Seq<char>, b: Seq<char>)
    requires
        encode_utf8(a) == encode_utf8(b),
    ensures
        a == b,
{
    encode_utf8_decode_utf8(a);
    encode_utf8_decode_utf8(b);
}

/// Byte width of one character.
pub fn len_utf8(c: char) -> (n: usize)
    ensures
        n == char_width(c),
        1 <= n <= 4,
{
    let v: u32 = c as u32;
    if v < 0x80 {
        1
    } else if v < 0x800 {
        2
    } else if v < 0x10000 {
        3
    } else {
        4
    }
}

/// Length of a slice in bytes.
pub fn byte_len(s: &str) -> (n: usize)
    ensures
        n == utf8_len(s@),
{
    broadcast use vstd::slice::axiom_spec_len;

    s.as_bytes().len()
}

/// The first character of a slice, if it has one.
pub fn first_char(s: &str) -> (r: Option<char>)
    ensures
        r == (if s@.len() == 0 {
            None::<char>
        } else {
            Some(s@[0])
        }),
{
    broadcast use group_string_axioms;

    let mut it = s.chars();
    it.next()
}

/// The slice that follows the first `k` characters, which take `n` bytes.
pub(crate) fn skip_chars<'a>(s: &'a str, n: usize, Ghost(k): Ghost<int>) -> (r: &'a str)
    requires
        0 <= k <= s@.len(),
        n == utf8_len(s@.take(k)),
    ensures
        r@ == s@.skip(k),
{
    proof {
        lemma_char_boundary(s@, k);
        lemma_utf8_split(s@, k);
    }
    let (_, tail) = s.split_at(n);
    proof {
        lemma_encode_injective(tail@, s@.skip(k));
    }
    tail
}

/// The slice of the first `k` characters, which take `n` bytes.
pub(crate) fn take_chars<'a>(s: &'a str, n: usize, Ghost(k): Ghost<int>) -> (r: &'a str)
    requires
        0 <= k <= s@.len(),
        n == utf8_len(s@.take(k)),
    ensures
        r@ == s@.take(k),
{
    proof {
        lemma_char_boundary(s@, k);
        lemma_utf8_split(s@, k);
    }
    let (head, _) = s.split_at(n);
    proof {
        lemma_encode_injective(head@, s@.take(k));
    }
    head
}

/// The slice that follows the first character.
pub fn skip_first<'a>(s: &'a str) -> (r: &'a str)
    requires
        s@.len() > 0,
    ensures
        r@ == s@.drop_first(),
{
    let c = match first_char(s) {
        Some(c) => c,
        None => { return s; },
    };
    let n = len_utf8(c);
    proof {
        assert(s@.take(1) =~= seq![c]);
        lemma_utf8_len_single(c);
        assert(s@.skip(1) =~= s@.drop_first());
    }
    skip_chars(s, n, Ghost(1))
}

/// Whether `s` begins with the characters of `prefix`.
pub fn starts_with(s: &str, prefix: &str) -> (r: bool)
    ensures
        r == prefix@.is_prefix_of(s@),
{
    let mut a = s;
    let mut b = prefix;
    let ghost mut k: int = 0;
    loop
        invariant
            0 <= k <= s@.len(),
            k <= prefix@.len(),
            a@ == s@.skip(k),
            b@ == prefix@.skip(k),
            s@.take(k) == prefix@.take(k),
        decreases prefix@.len() - k,
    {
        let cb = match first_char(b) {
            Some(c) => c,
            None => {
                proof {
                    assert(prefix@.take(k) =~= prefix@);
                    assert(s@.subrange(0, prefix@.len() as int) =~= s@.take(k));
                }
                return true;
            },
        };
        match first_char(a) {
            Some(ca) if ca == cb => {
                a = skip_first(a);
                b = skip_first(b);
                proof {
                    assert(s@.skip(k).drop_first() =~= s@.skip(k + 1));
                    assert(prefix@.skip(k).drop_first() =~= prefix@.skip(k + 1));
                    assert(s@.take(k + 1) =~= s@.take(k).push(s@[k]));
                    assert(prefix@.take(k + 1) =~= prefix@.take(k).push(prefix@[k]));
                    k = k + 1;
                }
            },
            _ => {
                proof {
                    if prefix@.is_prefix_of(s@) {
                        assert(s@.subrange(0, prefix@.len() as int)[k] == prefix@[k]);
                    }
                }
                return false;
            },
        }
    }
}

/// Whether two slices hold the same text.
pub fn str_eq(a: &str, b: &str) -> (r: bool)
    ensures
        r == (a@ == b@),
{
    let la = byte_len(a);
    let lb = byte_len(b);
    if la != lb {
        return false;
    }
    let r = starts_with(a, b);
    proof {
        if r {
            let k = b@.len() as int;
            assert(a@.take(k) =~= b@);
            lemma_utf8_split(a@, k);
            lemma_utf8_len_bounds(a@.skip(k));
            assert(a@ =~= a@.take(k));
        } else {
            if a@ == b@ {
                assert(a@.subrange(0, b@.len() as int) =~= b@);
            }
        }
    }
    r
}

} // verus!

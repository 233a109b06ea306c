//! Keys that are text: finding a character and splitting off what follows
//! it, by positions counted in bytes of UTF-8.

use crate::error::Error;
use vstd::prelude::*;
use vstd::std_specs::iter::IteratorSpec;
use vstd::string::{axiom_spec_iter, next_postcondition};
use vstd::utf8::{
    decode_utf8, encode_scalar, encode_utf8, encode_utf8_decode_utf8, encode_utf8_first_scalar,
    encode_utf8_valid_utf8, is_char_boundary, pop_first_scalar, valid_utf8,
};

verus! {

/// The number of bytes that `c` takes in UTF-8.
pub open spec fn utf8_len(c: char) -> nat {
    encode_scalar(c as u32).len()
}

/// The number of bytes that the characters of `s` take in UTF-8.
pub open spec fn utf8_len_of(s: Seq<char>) -> nat {
    encode_utf8(s).len()
}

/// The encoding of a text is the encoding of its parts, one after the
/// other.
pub proof fn lemma_encode_concat(a: Seq<char>, b: Seq<char>)
    ensures
        encode_utf8(a + b) == encode_utf8(a) + encode_utf8(b),
    decreases a.len(),
{
    if a.len() == 0 {
        assert(a + b =~= b);
        assert(encode_utf8(a) + encode_utf8(b) =~= encode_utf8(b));
    } else {
        lemma_encode_concat(a.drop_first(), b);
        assert((a + b).drop_first() =~= a.drop_first() + b);
        assert(encode_utf8(a + b) =~= encode_utf8(a) + encode_utf8(b));
    }
}

/// The first `i + 1` characters take the bytes of the first `i` and those
/// of character `i`, and no prefix takes more bytes than the whole.
pub proof fn lemma_prefix_len(s: Seq<char>, i: int)
    requires
        0 <= i < s.len(),
    ensures
        utf8_len_of(s.take(i + 1)) == utf8_len_of(s.take(i)) + utf8_len(s[i]),
        utf8_len_of(s.take(i + 1)) <= utf8_len_of(s),
{
    let one = seq![s[i]];
    assert(s.take(i + 1) =~= s.take(i) + one);
    lemma_encode_concat(s.take(i), one);
    assert(one.drop_first() =~= Seq::<char>::empty());
    assert(encode_utf8(one) =~= encode_scalar(s[i] as u32)) by {
        reveal_with_fuel(encode_utf8, 2);
    }
    assert(s =~= s.take(i + 1) + s.skip(i + 1));
    lemma_encode_concat(s.take(i + 1), s.skip(i + 1));
}

/// Computes the number of bytes that `c` takes in UTF-8.
pub fn char_width(c: char) -> (n: usize)
    ensures
        n == utf8_len(c),
        1 <= n <= 4,
{
    let v = c as u32;
    if v < 0x80 {
        1
    } else if v < 0x800 {
        2
    } else if v < 0x10000 {
        3
    } else {
        4
    }
}

/// Searches `haystack` for the character `needle`. Returns the byte offset
/// of its first occurrence, or `None` if it does not occur.
pub fn find(haystack: &str, needle: char) -> (r: Option<usize>)
    ensures
        match r {
            None => !haystack@.contains(needle),
            Some(offset) => exists|i: int|
                0 <= i < haystack@.len() && haystack@[i] == needle && !haystack@.take(i).contains(
                    needle,
                ) && offset == utf8_len_of(haystack@.take(i)),
        },
{
    broadcast use {axiom_spec_iter, next_postcondition};

    let total = haystack.as_bytes().len();
    let mut it = haystack.chars();
    let mut offset: usize = 0;
    let ghost mut i: int = 0;
    assert(haystack@.take(0) =~= Seq::<char>::empty());
    loop
        invariant
            0 <= i <= haystack@.len(),
            it.remaining() == haystack@.skip(i),
            !haystack@.take(i).contains(needle),
            offset == utf8_len_of(haystack@.take(i)),
            total == utf8_len_of(haystack@),
        decreases haystack@.len() - i,
    {
        match it.next() {
            None => {
                assert(haystack@.take(i) =~= haystack@);
                return None;
            },
            Some(c) => {
                assert(c == haystack@[i]);
                if c == needle {
                    return Some(offset);
                }
                proof {
                    lemma_prefix_len(haystack@, i);
                    assert(haystack@.take(i + 1).drop_last() =~= haystack@.take(i));
                    assert(haystack@.skip(i).drop_first() =~= haystack@.skip(i + 1));
                    i = i + 1;
                }
                offset = offset + char_width(c);
            },
        }
    }
}

/// What follows the first occurrence of `c` in `s`, if `c` occurs.
pub open spec fn after_first(s: Seq<char>, c: char) -> Option<Seq<char>>
    decreases s.len(),
{
    if s.len() == 0 {
        None
    } else if s[0] == c {
        Some(s.drop_first())
    } else {
        after_first(s.drop_first(), c)
    }
}

/// What follows the first occurrence is what comes after the first
/// position that holds the character.
pub proof fn lemma_after_first(s: Seq<char>, c: char, i: int)
    requires
        0 <= i <= s.len(),
        !s.take(i).contains(c),
        i < s.len() ==> s[i] == c,
    ensures
        after_first(s, c) == if i < s.len() {
            Some(s.skip(i + 1))
        } else {
            None
        },
    decreases s.len(),
{
    if s.len() == 0 {
    } else if i == 0 {
        assert(s.skip(1) =~= s.drop_first());
    } else {
        assert(s.take(i)[0] == s[0]);
        assert(s[0] != c);
        let t = s.drop_first();
        let head = t.take(i - 1);
        assert forall|k: int| 0 <= k < head.len() implies head[k] != c by {
            assert(s.take(i)[k + 1] == head[k]);
            assert(s.take(i).contains(s.take(i)[k + 1]));
        }
        lemma_after_first(t, c, i - 1);
        if i < s.len() {
            assert(t[i - 1] == s[i]);
            assert(t.skip(i) =~= s.skip(i + 1));
        }
    }
}

/// The end of the encoding of every prefix is a character boundary of the
/// encoding of the whole.
pub proof fn lemma_prefix_boundary(s: Seq<char>, i: int)
    requires
        0 <= i <= s.len(),
    ensures
        is_char_boundary(encode_utf8(s), utf8_len_of(s.take(i)) as int),
    decreases s.len(),
{
    encode_utf8_valid_utf8(s);
    if i == 0 {
        assert(s.take(0) =~= Seq::<char>::empty());
    } else {
        let bytes = encode_utf8(s);
        let t = s.drop_first();
        encode_utf8_first_scalar(s);
        assert(pop_first_scalar(bytes) =~= encode_utf8(t));
        let one = seq![s[0]];
        assert(s.take(i) =~= one + t.take(i - 1));
        lemma_encode_concat(one, t.take(i - 1));
        assert(one.drop_first() =~= Seq::<char>::empty());
        assert(encode_utf8(one) =~= encode_scalar(s[0] as u32)) by {
            reveal_with_fuel(encode_utf8, 2);
        }
        lemma_prefix_boundary(t, i - 1);
        assert(s =~= s.take(i) + s.skip(i));
        lemma_encode_concat(s.take(i), s.skip(i));
    }
}

/// Returns the extension of a file name: all that follows its first `.`,
/// or `None` if it has no `.`.
pub fn extension_explicit(file_name: &str) -> (r: Option<&str>)
    ensures
        match r {
            Some(e) => after_first(file_name@, '.') == Some(e@),
            None => after_first(file_name@, '.') is None,
        },
{
    let ghost s = file_name@;
    match find(file_name, '.') {
        None => {
            proof {
                assert(s.take(s.len() as int) =~= s);
                lemma_after_first(s, '.', s.len() as int);
            }
            None
        },
        Some(offset) => {
            let total = file_name.as_bytes().len();
            proof {
                let i = choose|i: int|
                    0 <= i < s.len() && s[i] == '.' && !s.take(i).contains('.') && offset
                        == utf8_len_of(s.take(i));
                lemma_after_first(s, '.', i);
                lemma_prefix_len(s, i);
                lemma_prefix_boundary(s, i + 1);
                assert(s =~= s.take(i + 1) + s.skip(i + 1));
                lemma_encode_concat(s.take(i + 1), s.skip(i + 1));
                assert(encode_utf8(s).subrange(offset + 1, total as int) =~= encode_utf8(
                    s.skip(i + 1),
                ));
            }
            let (_, rest) = file_name.split_at(offset + 1);
            proof {
                encode_utf8_decode_utf8(rest@);
                let i = choose|i: int|
                    0 <= i < s.len() && s[i] == '.' && !s.take(i).contains('.') && offset
                        == utf8_len_of(s.take(i));
                encode_utf8_decode_utf8(s.skip(i + 1));
            }
            Some(rest)
        },
    }
}

/// Returns the extension of a file name: all that follows its first `.`,
/// or `None` if it has no `.`.
pub fn extension(file_name: &str) -> (r: Option<&str>)
    ensures
        match r {
            Some(e) => after_first(file_name@, '.') == Some(e@),
            None => after_first(file_name@, '.') is None,
        },
{
    extension_explicit(file_name)
}

/// Calls `String::from_utf8`. It gives the text that the bytes encode
/// exactly if they are valid UTF-8, and nothing otherwise.
#[verifier::external_body]
fn string_from_utf8(bytes: Vec<u8>) -> (r: Option<String>)
    ensures
        match r {
            Some(s) => valid_utf8(bytes@) && s@ == decode_utf8(bytes@),
            None => !valid_utf8(bytes@),
        },
{
    String::from_utf8(bytes).ok()
}

/// Reads a key as text.
pub fn key_to_string(key: &[u8]) -> (r: Result<String, Error>)
    ensures
        match r {
            Ok(s) => valid_utf8(key@) && s@ == decode_utf8(key@),
            Err(e) => !valid_utf8(key@) && e == Error::Utf8DecodeError,
        },
{
    match string_from_utf8(vstd::slice::slice_to_vec(key)) {
        Some(s) => Ok(s),
        None => Err(Error::Utf8DecodeError),
    }
}

/// The texts are what the keys of the first `n` entries decode to.
pub open spec fn decoded(list: Seq<(Vec<u8>, u64)>, texts: Seq<String>, n: int) -> bool {
    forall|i: int|
        0 <= i < n ==> valid_utf8((#[trigger] list[i]).0@) && texts[i]@ == decode_utf8(list[i].0@)
}

/// Reads the keys of a list of entries as texts, in their order. Fails if
/// one of the keys is not valid UTF-8.
pub fn into_strs(list: &Vec<(Vec<u8>, u64)>) -> (r: Result<Vec<String>, Error>)
    ensures
        match r {
            Ok(texts) => texts.len() == list.len() && decoded(list@, texts@, list.len() as int),
            Err(e) => e == Error::Utf8DecodeError && exists|i: int|
                0 <= i < list.len() && !valid_utf8((#[trigger] list[i]).0@),
        },
{
    let mut texts: Vec<String> = Vec::new();
    let n = list.len();
    let mut i: usize = 0;
    while i < n
        invariant
            i <= n,
            n == list.len(),
            texts.len() == i,
            decoded(list@, texts@, i as int),
        decreases n - i,
    {
        match key_to_string(list[i].0.as_slice()) {
            Ok(s) => {
                let ghost before = texts@;
                let ghost text = s@;
                texts.push(s);
                proof {
                    assert forall|k: int| 0 <= k < i + 1 implies valid_utf8(
                        (#[trigger] list@[k]).0@,
                    ) && texts@[k]@ == decode_utf8(list@[k].0@) by {
                        if k < i {
                            assert(texts@[k] == before[k]);
                        } else {
                            assert(texts@[k]@ == text);
                        }
                    }
                }
            },
            Err(e) => {
                assert(!valid_utf8(list[i as int].0@));
                return Err(e);
            },
        }
        i += 1;
    }
    Ok(texts)
}

} // verus!

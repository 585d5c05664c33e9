//! Helpers for naming polytopes in Spanish.

use vstd::prelude::*;
use vstd::string::*;

verus! {

/// The Spanish language.
pub struct Es;

/// Whether `c` is one of the unaccented lowercase vowels.
pub open spec fn is_plain_vowel(c: char) -> bool {
    c == 'a' || c == 'e' || c == 'i' || c == 'o' || c == 'u'
}

/// The vowel `c` with an acute accent; other characters stay as they are.
pub open spec fn accented(c: char) -> char {
    if c == 'a' {
        'á'
    } else if c == 'e' {
        'é'
    } else if c == 'i' {
        'í'
    } else if c == 'o' {
        'ó'
    } else if c == 'u' {
        'ú'
    } else {
        c
    }
}

/// The index of the last unaccented vowel of `s`, or `-1` if there is none.
pub open spec fn last_vowel_index(s: Seq<char>) -> int
    decreases s.len(),
{
    if s.len() == 0 {
        -1
    } else if is_plain_vowel(s.last()) {
        s.len() - 1
    } else {
        last_vowel_index(s.drop_last())
    }
}

/// `s` with its last unaccented vowel accented.
pub open spec fn last_vowel_tilde_spec(s: Seq<char>) -> Seq<char> {
    let i = last_vowel_index(s);
    if i < 0 {
        s
    } else {
        s.update(i, accented(s[i]))
    }
}

proof fn lemma_last_vowel_index(s: Seq<char>, i: int)
    requires
        0 <= i <= s.len(),
        forall|j: int| i <= j < s.len() ==> !is_plain_vowel(#[trigger] s[j]),
    ensures
        last_vowel_index(s) == last_vowel_index(s.subrange(0, i)),
    decreases s.len() - i,
{
    if i < s.len() {
        assert(s.drop_last() =~= s.subrange(0, s.len() - 1));
        lemma_last_vowel_index(s.drop_last(), i);
        assert(s.drop_last().subrange(0, i) =~= s.subrange(0, i));
    } else {
        assert(s.subrange(0, i) =~= s);
    }
}

/// Collects characters into a string.
/// Relies on `FromIterator<char> for String`: the characters in order.
#[verifier::external_body]
fn string_from_chars(chars: Vec<char>) -> (r: String)
    ensures
        r@ == chars@,
{
    chars.into_iter().collect()
}

/// Puts an acute accent on the last unaccented vowel of `prefix`, as Spanish
/// polygon names ask ("penta" becomes "pentá").
pub fn last_vowel_tilde(prefix: String) -> (r: String)
    ensures
        r@ == last_vowel_tilde_spec(prefix@),
{
    let s = prefix.as_str();
    let len = s.unicode_len();
    let mut chars: Vec<char> = Vec::new();
    let mut k: usize = 0;
    while k < len
        invariant
            len == s@.len(),
            s@ == prefix@,
            k <= len,
            chars@ == s@.subrange(0, k as int),
        decreases len - k,
    {
        chars.push(s.get_char(k));
        k += 1;
        proof {
            assert(chars@ =~= s@.subrange(0, k as int));
        }
    }
    proof {
        assert(chars@ =~= prefix@);
    }
    let mut i: usize = len;
    while i > 0
        invariant
            i <= len,
            chars@ == prefix@,
            len == prefix@.len(),
            forall|j: int| i <= j < len ==> !is_plain_vowel(#[trigger] prefix@[j]),
        decreases i,
    {
        let c = chars[i - 1];
        if c == 'a' || c == 'e' || c == 'i' || c == 'o' || c == 'u' {
            let a = if c == 'a' {
                'á'
            } else if c == 'e' {
                'é'
            } else if c == 'i' {
                'í'
            } else if c == 'o' {
                'ó'
            } else {
                'ú'
            };
            proof {
                lemma_last_vowel_index(prefix@, i as int);
                assert(prefix@.subrange(0, i as int).drop_last() =~= prefix@.subrange(0, i - 1));
            }
            chars.set(i - 1, a);
            return string_from_chars(chars);
        }
        i -= 1;
    }
    proof {
        lemma_last_vowel_index(prefix@, 0);
    }
    string_from_chars(chars)
}

} // verus!

//! Character-level helpers on strings: the characters of a string, and the
//! lexicographic order by code point in which strings compare.

use vstd::prelude::*;
use vstd::utf8::is_ascii_chars;

verus! {

/// The lowercase form of a text under the Unicode case mapping.
pub uninterp spec fn lowercased(text: Seq<char>) -> Seq<char>;

/// A character with the letters `A` to `Z` mapped to `a` to `z`.
pub open spec fn ascii_lower_char(c: char) -> char {
    if 'A' <= c && c <= 'Z' {
        ((c as int) + 32) as char
    } else {
        c
    }
}

/// A text with the letters `A` to `Z` mapped to `a` to `z`.
pub open spec fn ascii_lowercased(text: Seq<char>) -> Seq<char> {
    Seq::new(text.len(), |i: int| ascii_lower_char(text[i]))
}

/// Lowercases a string with `str::to_lowercase`.
///
/// Trusted: the result is the Unicode lowercase form of the argument, which
/// for a text made of ASCII characters alone maps `A` to `Z` onto `a` to `z`
/// and leaves every other character as it is.
#[verifier::external_body]
pub(crate) fn lowercase(s: &str) -> (r: String)
    ensures
        r@ == lowercased(s@),
        is_ascii_chars(s@) ==> r@ == ascii_lowercased(s@),
{
    s.to_lowercase()
}

/// The text of an optional string.
pub open spec fn text_of(s: Option<String>) -> Option<Seq<char>> {
    match s {
        Some(t) => Some(t@),
        None => None,
    }
}

/// The characters of a string, in order.
pub fn chars_of(s: &str) -> (out: Vec<char>)
    ensures
        out@ == s@,
{
    let mut out: Vec<char> = Vec::new();
    for c in it: s.chars()
        invariant
            out@ == it.history(),
    {
        out.push(c);
    }
    out
}

/// `a` and `b` agree on their first `n` characters.
pub open spec fn agree_upto(a: Seq<char>, b: Seq<char>, n: int) -> bool {
    &&& 0 <= n <= a.len()
    &&& n <= b.len()
    &&& forall|j: int| 0 <= j < n ==> a[j] == b[j]
}

/// `a` and `b` first differ at position `i`, where `a` has the smaller code point.
pub open spec fn smaller_at(a: Seq<char>, b: Seq<char>, i: int) -> bool {
    &&& agree_upto(a, b, i)
    &&& i < a.len()
    &&& i < b.len()
    &&& (a[i] as int) < (b[i] as int)
}

/// `a` sorts strictly before `b`: it is a proper prefix of `b`, or it has the
/// smaller code point where the two first differ.
pub open spec fn text_lt(a: Seq<char>, b: Seq<char>) -> bool {
    ||| (a.len() < b.len() && agree_upto(a, b, a.len() as int))
    ||| exists|i: int| smaller_at(a, b, i)
}

/// `a` sorts before `b` or is equal to it.
pub open spec fn text_le(a: Seq<char>, b: Seq<char>) -> bool {
    a == b || text_lt(a, b)
}

/// No text sorts strictly before itself.
pub proof fn lemma_text_lt_irreflexive(a: Seq<char>)
    ensures
        !text_lt(a, a),
{
}

/// Of two texts, one sorts strictly before the other, or they are equal.
pub proof fn lemma_text_total(a: Seq<char>, b: Seq<char>)
    ensures
        text_lt(a, b) || a == b || text_lt(b, a),
{
    lemma_total_from(a, b, 0);
}

proof fn lemma_total_from(a: Seq<char>, b: Seq<char>, n: int)
    requires
        agree_upto(a, b, n),
    ensures
        text_lt(a, b) || a == b || text_lt(b, a),
    decreases a.len() - n,
{
    if n == a.len() {
        if a.len() == b.len() {
            assert(a =~= b);
        } else {
            assert(agree_upto(a, b, a.len() as int));
        }
    } else if n == b.len() {
        assert(agree_upto(b, a, b.len() as int));
    } else if a[n] == b[n] {
        lemma_total_from(a, b, n + 1);
    } else if (a[n] as int) < (b[n] as int) {
        assert(smaller_at(a, b, n));
    } else {
        assert(smaller_at(b, a, n));
    }
}

/// Strict order is transitive.
pub proof fn lemma_text_lt_transitive(a: Seq<char>, b: Seq<char>, c: Seq<char>)
    requires
        text_lt(a, b),
        text_lt(b, c),
    ensures
        text_lt(a, c),
{
    if a.len() < b.len() && agree_upto(a, b, a.len() as int) {
        if b.len() < c.len() && agree_upto(b, c, b.len() as int) {
            assert(agree_upto(a, c, a.len() as int));
        } else {
            let j = choose|j: int| smaller_at(b, c, j);
            if j < a.len() {
                assert(smaller_at(a, c, j));
            } else {
                assert(agree_upto(a, c, a.len() as int));
            }
        }
    } else {
        let i = choose|i: int| smaller_at(a, b, i);
        if b.len() < c.len() && agree_upto(b, c, b.len() as int) {
            assert(smaller_at(a, c, i));
        } else {
            let j = choose|j: int| smaller_at(b, c, j);
            if i <= j {
                assert(smaller_at(a, c, i));
            } else {
                assert(smaller_at(a, c, j));
            }
        }
    }
}

/// Two texts never sort strictly before each other.
pub proof fn lemma_text_lt_asymmetric(a: Seq<char>, b: Seq<char>)
    requires
        text_lt(a, b),
    ensures
        !text_lt(b, a),
        a != b,
{
    if text_lt(b, a) {
        lemma_text_lt_transitive(a, b, a);
    }
}

/// Whether `a` sorts strictly before `b`.
pub fn sorts_before(a: &Vec<char>, b: &Vec<char>) -> (r: bool)
    ensures
        r == text_lt(a@, b@),
{
    let mut i: usize = 0;
    while i < a.len() && i < b.len()
        invariant
            agree_upto(a@, b@, i as int),
        decreases a.len() - i,
    {
        if a[i] != b[i] {
            let before = a[i] < b[i];
            proof {
                if before {
                    assert(smaller_at(a@, b@, i as int));
                } else {
                    assert(smaller_at(b@, a@, i as int));
                    lemma_text_lt_asymmetric(b@, a@);
                }
            }
            return before;
        }
        i += 1;
    }
    proof {
        if i == a.len() && a.len() < b.len() {
            assert(agree_upto(a@, b@, a@.len() as int));
        } else if a.len() == b.len() {
            assert(a@ =~= b@);
            lemma_text_lt_irreflexive(a@);
        } else {
            assert(agree_upto(b@, a@, b@.len() as int));
            lemma_text_lt_asymmetric(b@, a@);
        }
    }
    i == a.len() && a.len() < b.len()
}

/// Whether a name marks a hidden entry: it starts with a dot.
pub open spec fn is_hidden_name(name: Seq<char>) -> bool {
    name.len() > 0 && name[0] == '.'
}

/// Whether `name` starts with a dot.
pub fn is_hidden(name: &str) -> (r: bool)
    ensures
        r == is_hidden_name(name@),
{
    name.unicode_len() > 0 && name.get_char(0) == '.'
}

/// The position of the last dot in `name`, or -1 if it holds none.
pub open spec fn last_dot(name: Seq<char>) -> int
    decreases name.len(),
{
    if name.len() == 0 {
        -1
    } else if name.last() == '.' {
        name.len() - 1
    } else {
        last_dot(name.drop_last())
    }
}

/// `last_dot` is -1 exactly when no character is a dot; otherwise it is the
/// position of a dot that no dot follows.
pub proof fn lemma_last_dot(name: Seq<char>)
    ensures
        -1 <= last_dot(name) < name.len(),
        last_dot(name) >= 0 ==> name[last_dot(name)] == '.',
        forall|j: int| last_dot(name) < j < name.len() ==> name[j] != '.',
    decreases name.len(),
{
    if name.len() > 0 && name.last() != '.' {
        let front = name.drop_last();
        lemma_last_dot(front);
        assert forall|j: int| last_dot(name) < j < name.len() implies name[j] != '.' by {
            if j < front.len() {
                assert(front[j] == name[j]);
            }
        }
    }
}

/// The extension of a file name: what follows its last dot. A name without
/// a dot has none, nor has one whose only dot is its first character, nor
/// the name `..`.
pub open spec fn extension_of(name: Seq<char>) -> Option<Seq<char>> {
    if last_dot(name) <= 0 || name == seq!['.', '.'] {
        None
    } else {
        Some(name.subrange(last_dot(name) + 1, name.len() as int))
    }
}

/// The extension of the file name `name`.
pub fn file_extension(name: &str) -> (r: Option<String>)
    ensures
        r is Some == extension_of(name@) is Some,
        r is Some ==> r->0@ == extension_of(name@)->0,
{
    let chars = chars_of(name);
    let n = chars.len();
    let mut i: usize = n;
    while i > 0 && chars[i - 1] != '.'
        invariant
            i <= n,
            n == chars@.len(),
            forall|j: int| i <= j < n ==> chars@[j] != '.',
        decreases i,
    {
        i -= 1;
    }
    proof {
        lemma_last_dot(name@);
        if i > 0 {
            assert(last_dot(name@) == i - 1);
        } else {
            assert(last_dot(name@) == -1);
        }
    }
    if i <= 1 || (n == 2 && chars[0] == '.') {
        proof {
            if i > 1 {
                assert(name@ =~= seq!['.', '.']);
            } else {
                assert(last_dot(name@) <= 0);
            }
        }
        None
    } else {
        proof {
            if name@ == seq!['.', '.'] {
                assert(seq!['.', '.'].len() == 2);
                assert(seq!['.', '.'][0] == '.');
            }
        }
        Some(name.substring_char(i, n).to_owned())
    }
}

/// `part` stands in `whole` at position `i`.
pub open spec fn occurs_at(whole: Seq<char>, part: Seq<char>, i: int) -> bool {
    &&& 0 <= i
    &&& i + part.len() <= whole.len()
    &&& forall|k: int| 0 <= k < part.len() ==> whole[i + k] == part[k]
}

/// `part` stands somewhere in `whole`.
pub open spec fn contains_text(whole: Seq<char>, part: Seq<char>) -> bool {
    exists|i: int| occurs_at(whole, part, i)
}

/// Whether the text `part` stands somewhere in `whole`.
pub fn holds_text(whole: &Vec<char>, part: &str) -> (r: bool)
    ensures
        r == contains_text(whole@, part@),
{
    let pattern = chars_of(part);
    if pattern.len() > whole.len() {
        assert forall|i: int| !occurs_at(whole@, part@, i) by {}
        return false;
    }
    let last = whole.len() - pattern.len();
    let mut i: usize = 0;
    while i <= last
        invariant
            pattern@ == part@,
            pattern.len() <= whole.len(),
            last == whole.len() - pattern.len(),
            i <= last + 1,
            forall|j: int| 0 <= j < i ==> !occurs_at(whole@, part@, j),
        decreases last + 1 - i,
    {
        let mut k: usize = 0;
        while k < pattern.len() && whole[i + k] == pattern[k]
            invariant
                k <= pattern.len(),
                i <= last,
                last == whole.len() - pattern.len(),
                forall|m: int| 0 <= m < k ==> whole@[i + m] == pattern@[m],
            decreases pattern.len() - k,
        {
            k += 1;
        }
        if k == pattern.len() {
            assert(occurs_at(whole@, part@, i as int));
            return true;
        }
        i += 1;
    }
    assert forall|j: int| !occurs_at(whole@, part@, j) by {}
    false
}

} // verus!

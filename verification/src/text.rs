//! Texts as sequences of characters, and trimming.

use vstd::prelude::*;

verus! {

/// Whether a character beyond ASCII is whitespace as Unicode defines it
/// (`White_Space`), in the answer of `char::is_whitespace`.
pub uninterp spec fn unicode_whitespace(text: char) -> bool;

/// Whether `text` is whitespace. Within ASCII these are the space and the
/// five characters from the tab to the carriage return; beyond ASCII,
/// whatever Unicode calls whitespace.
pub open spec fn is_whitespace(text: char) -> bool {
    if text <= '\u{7f}' {
        text == ' ' || ('\t' <= text && text <= '\r')
    } else {
        unicode_whitespace(text)
    }
}

/// Calls `char::is_whitespace`. The contract claims that within ASCII the
/// answer is true of the space and of the characters from U+0009 to U+000D
/// and of no other, and that beyond ASCII it depends on the character alone,
/// where it gives the answer its name.
#[verifier::external_body]
fn char_is_whitespace(text: char) -> (whitespace: bool)
    ensures
        text <= '\u{7f}' ==> whitespace == (text == ' ' || ('\t' <= text && text <= '\r')),
        text > '\u{7f}' ==> whitespace == unicode_whitespace(text),
{
    text.is_whitespace()
}

/// `text` without its leading whitespace.
pub open spec fn trim_start(text: Seq<char>) -> Seq<char>
    decreases text.len(),
{
    if text.len() > 0 && is_whitespace(text.first()) {
        trim_start(text.drop_first())
    } else {
        text
    }
}

/// `text` without its trailing whitespace.
pub open spec fn trim_end(text: Seq<char>) -> Seq<char>
    decreases text.len(),
{
    if text.len() > 0 && is_whitespace(text.last()) {
        trim_end(text.drop_last())
    } else {
        text
    }
}

/// `text` without its leading and trailing whitespace.
pub open spec fn trim(text: Seq<char>) -> Seq<char> {
    trim_end(trim_start(text))
}

/// The characters of `text`.
pub fn chars_of(text: &str) -> (chars: Vec<char>)
    ensures
        chars@ == text@,
{
    let mut chars: Vec<char> = Vec::new();
    for c in it: text.chars()
        invariant
            it.seq() == text@,
            chars@ == it.seq().take(it.index()),
    {
        chars.push(c);
    }
    chars
}

/// The bounds of `chars` without its leading and trailing whitespace.
pub fn trim_bounds(chars: &Vec<char>) -> (bounds: (usize, usize))
    ensures
        bounds.0 <= bounds.1 <= chars@.len(),
        chars@.subrange(bounds.0 as int, bounds.1 as int) == trim(chars@),
{
    let mut lo: usize = 0;
    proof {
        assert(chars@.subrange(0, chars@.len() as int) =~= chars@);
    }
    while lo < chars.len() && char_is_whitespace(chars[lo])
        invariant
            lo <= chars@.len(),
            trim_start(chars@) == trim_start(chars@.subrange(lo as int, chars@.len() as int)),
        decreases chars@.len() - lo,
    {
        proof {
            let rest = chars@.subrange(lo as int, chars@.len() as int);
            assert(rest.drop_first() =~= chars@.subrange(lo + 1, chars@.len() as int));
        }
        lo += 1;
    }
    let mut hi: usize = chars.len();
    while lo < hi && char_is_whitespace(chars[hi - 1])
        invariant
            lo <= hi <= chars@.len(),
            trim(chars@) == trim_end(chars@.subrange(lo as int, hi as int)),
        decreases hi,
    {
        proof {
            let rest = chars@.subrange(lo as int, hi as int);
            assert(rest.drop_last() =~= chars@.subrange(lo as int, hi - 1));
        }
        hi -= 1;
    }
    (lo, hi)
}

/// Every character of `text` is whitespace.
pub open spec fn all_whitespace(text: Seq<char>) -> bool {
    forall|i: int| 0 <= i < text.len() ==> is_whitespace(#[trigger] text[i])
}

/// Trimming the start of two texts in a row trims the second where the
/// first is whitespace throughout, and the first alone otherwise.
pub proof fn lemma_trim_start_append(left: Seq<char>, right: Seq<char>)
    ensures
        trim_start(left + right) == if all_whitespace(left) {
            trim_start(right)
        } else {
            trim_start(left) + right
        },
    decreases left.len(),
{
    if left.len() > 0 {
        let rest = left.drop_first();
        assert((left + right).drop_first() =~= rest + right);
        if is_whitespace(left.first()) {
            lemma_trim_start_append(rest, right);
            if all_whitespace(rest) {
                assert forall|i: int| 0 <= i < left.len() implies is_whitespace(
                    #[trigger] left[i],
                ) by {
                    if i > 0 {
                        assert(is_whitespace(rest[i - 1]));
                    }
                }
            }
        }
    }
}

/// Trimming the end of two texts in a row trims the first where the second
/// is whitespace throughout, and the second alone otherwise.
pub proof fn lemma_trim_end_append(left: Seq<char>, right: Seq<char>)
    ensures
        trim_end(left + right) == if all_whitespace(right) {
            trim_end(left)
        } else {
            left + trim_end(right)
        },
    decreases right.len(),
{
    if right.len() > 0 {
        let rest = right.drop_last();
        assert((left + right).drop_last() =~= left + rest);
        if is_whitespace(right.last()) {
            lemma_trim_end_append(left, rest);
            if all_whitespace(rest) {
                assert forall|i: int| 0 <= i < right.len() implies is_whitespace(
                    #[trigger] right[i],
                ) by {
                    if i < rest.len() {
                        assert(is_whitespace(rest[i]));
                    }
                }
            }
        }
    }
}

/// Whitespace around a text does not change what trimming leaves of it.
pub proof fn lemma_trim_padding(left: Seq<char>, text: Seq<char>, right: Seq<char>)
    ensures
        all_whitespace(left) && all_whitespace(right) ==> trim(left + text + right) == trim(text),
{
    let nothing = Seq::<char>::empty();
    assert(left + text + right =~= left + (text + right));
    lemma_trim_start_append(left, text + right);
    lemma_trim_start_append(text, right);
    if all_whitespace(text) {
        lemma_trim_start_append(right, nothing);
        lemma_trim_start_append(text, nothing);
    } else {
        lemma_trim_end_append(trim_start(text), right);
    }
}

} // verus!

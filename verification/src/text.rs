//! Character-level text utilities shared by the tokenizer, the query
//! engine and the snippet extractor: Unicode case folding, whitespace
//! classification, and code-point-safe excerpts.

use vstd::prelude::*;

verus! {

/// The lower-cased form of a character sequence, as `str::to_lowercase`
/// computes it. The mapping is a pure function of the characters alone;
/// its full definition (the Unicode lowercase mapping) is not spelled out
/// here, so nothing is known of it beyond what [`fold_case`] states.
pub uninterp spec fn lower_of(s: Seq<char>) -> Seq<char>;

/// Relies on `str::to_lowercase`: the result is the Unicode lowercase
/// mapping of the input, a function of the input characters alone, and an
/// empty input folds to an empty output.
#[verifier::external_body]
pub fn fold_case(s: &str) -> (r: String)
    ensures
        r@ == lower_of(s@),
        s@.len() == 0 ==> r@.len() == 0,
{
    s.to_lowercase()
}

/// Whether `c` has the Unicode `White_Space` property, the classification
/// that separates the words of a query.
pub open spec fn is_space_char(c: char) -> bool {
    ||| c == ' '
    ||| c == '\t'
    ||| c == '\n'
    ||| c == '\u{b}'
    ||| c == '\u{c}'
    ||| c == '\r'
    ||| c == '\u{85}'
    ||| c == '\u{a0}'
    ||| c == '\u{1680}'
    ||| c == '\u{2000}'
    ||| c == '\u{2001}'
    ||| c == '\u{2002}'
    ||| c == '\u{2003}'
    ||| c == '\u{2004}'
    ||| c == '\u{2005}'
    ||| c == '\u{2006}'
    ||| c == '\u{2007}'
    ||| c == '\u{2008}'
    ||| c == '\u{2009}'
    ||| c == '\u{200a}'
    ||| c == '\u{2028}'
    ||| c == '\u{2029}'
    ||| c == '\u{202f}'
    ||| c == '\u{205f}'
    ||| c == '\u{3000}'
}

/// Decides [`is_space_char`].
pub fn is_space(c: char) -> (b: bool)
    ensures
        b == is_space_char(c),
{
    c == ' ' || c == '\t' || c == '\n' || c == '\u{b}' || c == '\u{c}' || c == '\r'
        || c == '\u{85}' || c == '\u{a0}' || c == '\u{1680}'
        || (c >= '\u{2000}' && c <= '\u{200a}') || c == '\u{2028}' || c == '\u{2029}'
        || c == '\u{202f}' || c == '\u{205f}' || c == '\u{3000}'
}

/// The three-character marker appended to a truncated excerpt.
pub open spec fn ellipsis() -> Seq<char> {
    seq!['.', '.', '.']
}

/// What an excerpt of `content` bounded by `max` code points is: the
/// content itself when it fits, otherwise its first `max` code points
/// followed by the ellipsis marker.
pub open spec fn excerpt_spec(content: Seq<char>, max: int) -> Seq<char> {
    if content.len() <= max {
        content
    } else {
        content.subrange(0, max) + ellipsis()
    }
}

/// Bounded excerpt of `content`: at most `max` code points of it, plus the
/// three-character ellipsis only when something was cut. Counting and
/// slicing are in code points, so no multi-byte character is ever split.
pub fn excerpt(content: &str, max: usize) -> (r: String)
    ensures
        r@ == excerpt_spec(content@, max as int),
{
    let n = content.unicode_len();
    if n <= max {
        content.to_owned()
    } else {
        let head = content.substring_char(0, max);
        let mut r = head.to_owned();
        r.append("...");
        proof {
            reveal_strlit("...");
            assert(("..."@) =~= ellipsis());
            assert(r@ =~= excerpt_spec(content@, max as int));
        }
        r
    }
}

} // verus!

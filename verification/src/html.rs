//! Reading a page title back out of generated HTML: the text of the
//! first `<title>` element, else the text of the first `<h1>` element,
//! else a fixed fallback. All offsets are code points, and the result is
//! trimmed of surrounding whitespace.

use vstd::prelude::*;

use crate::text::{is_space, is_space_char};

verus! {

/// First offset at or after `i` where `pat` occurs in `s`, or -1 if it
/// occurs nowhere at or after `i`.
pub open spec fn find_from(s: Seq<char>, pat: Seq<char>, i: int) -> int
    decreases s.len() - i,
    when 0 <= i && pat.len() >= 1
{
    if i + pat.len() > s.len() {
        -1
    } else if s.subrange(i, i + pat.len()) == pat {
        i
    } else {
        find_from(s, pat, i + 1)
    }
}

/// First offset at or after `i` holding a non-space character, or the
/// end of `s`.
pub open spec fn skip_space(s: Seq<char>, i: int) -> int
    decreases s.len() - i,
    when 0 <= i
{
    if i >= s.len() {
        i
    } else if is_space_char(s[i]) {
        skip_space(s, i + 1)
    } else {
        i
    }
}

/// Offset just past the last non-space character strictly before `j`,
/// or 0.
pub open spec fn rskip_space(s: Seq<char>, j: int) -> int
    decreases j,
    when j <= s.len()
{
    if j <= 0 {
        0
    } else if is_space_char(s[j - 1]) {
        rskip_space(s, j - 1)
    } else {
        j
    }
}

/// `s` with surrounding whitespace removed.
pub open spec fn trim_spec(s: Seq<char>) -> Seq<char> {
    let a = skip_space(s, 0);
    let b = rskip_space(s, s.len() as int);
    if a <= b {
        s.subrange(a, b)
    } else {
        Seq::empty()
    }
}

/// The title fallback for a page without a recognizable heading.
pub open spec fn untitled_conversation() -> Seq<char> {
    seq![
        'U',
        'n',
        't',
        'i',
        't',
        'l',
        'e',
        'd',
        ' ',
        'c',
        'o',
        'n',
        'v',
        'e',
        'r',
        's',
        'a',
        't',
        'i',
        'o',
        'n',
    ]
}

/// The characters of `<title>`.
pub open spec fn title_open() -> Seq<char> {
    seq!['<', 't', 'i', 't', 'l', 'e', '>']
}

/// The characters of `</title>`.
pub open spec fn title_close() -> Seq<char> {
    seq!['<', '/', 't', 'i', 't', 'l', 'e', '>']
}

/// The characters of `<h1`.
pub open spec fn h1_open() -> Seq<char> {
    seq!['<', 'h', '1']
}

/// The characters of `</h1>`.
pub open spec fn h1_close() -> Seq<char> {
    seq!['<', '/', 'h', '1', '>']
}

/// What the title of a page is: the trimmed text between the first
/// `<title>` and the following `</title>`; failing that, the trimmed
/// text between the first `<h1` tag's closing `>` and the following
/// `</h1>`; failing that, the fixed fallback.
pub open spec fn title_of_html(s: Seq<char>) -> Seq<char> {
    let t0 = find_from(s, title_open(), 0);
    if t0 >= 0 && find_from(s, title_close(), t0) >= t0 + 7 {
        trim_spec(s.subrange(t0 + 7, find_from(s, title_close(), t0)))
    } else {
        let h0 = find_from(s, h1_open(), 0);
        if h0 >= 0 {
            let e = find_from(s, h1_close(), h0);
            let g = find_from(s, seq!['>'], h0);
            if e >= 0 && g >= 0 && g + 1 <= e {
                trim_spec(s.subrange(g + 1, e))
            } else {
                untitled_conversation()
            }
        } else {
            untitled_conversation()
        }
    }
}

/// Finds the first occurrence of `pat` at or after `from`, scanning code
/// points.
fn find_sub(s: &str, pat: &str, from: usize) -> (r: Option<usize>)
    requires
        pat@.len() >= 1,
    ensures
        (r matches Some(i) ==> find_from(s@, pat@, from as int) == i as int && i < s@.len()),
        (r is None ==> find_from(s@, pat@, from as int) == -1),
{
    let n = s.unicode_len();
    let m = pat.unicode_len();
    let mut i = from;
    if m > n {
        proof {
            assert(find_from(s@, pat@, from as int) == -1);
        }
        return None;
    }
    while i <= n - m
        invariant
            n == s@.len(),
            m == pat@.len(),
            1 <= m <= n,
            from <= i,
            find_from(s@, pat@, from as int) == find_from(s@, pat@, i as int),
        decreases n - i,
    {
        let mut ok = true;
        let mut j: usize = 0;
        while j < m && ok
            invariant
                n == s@.len(),
                m == pat@.len(),
                i + m <= n,
                j <= m,
                ok ==> forall|k: int| 0 <= k < j ==> s@[i + k] == pat@[k],
                !ok ==> j < m && s@[i as int + j as int] != pat@[j as int],
            decreases m - j + (if ok { 1int } else { 0int }),
        {
            if s.get_char(i + j) != pat.get_char(j) {
                ok = false;
            } else {
                j = j + 1;
            }
        }
        if ok {
            proof {
                assert(s@.subrange(i as int, i as int + m as int) =~= pat@);
                assert(find_from(s@, pat@, i as int) == i as int);
            }
            return Some(i);
        }
        proof {
            let sub = s@.subrange(i as int, i as int + m as int);
            assert(sub[j as int] == s@[i as int + j as int]);
            assert(sub != pat@);
            assert(find_from(s@, pat@, i as int) == find_from(s@, pat@, i as int + 1));
        }
        i = i + 1;
    }
    proof {
        assert(i as int + m as int > n as int);
        assert(find_from(s@, pat@, i as int) == -1);
    }
    None
}

proof fn lemma_skip_space_pin(s: Seq<char>, a: int)
    requires
        0 <= a <= s.len(),
        forall|k: int| 0 <= k < a ==> is_space_char(s[k]),
        a == s.len() || !is_space_char(s[a]),
    ensures
        skip_space(s, 0) == a,
{
    lemma_skip_space_pin_from(s, 0, a);
}

proof fn lemma_skip_space_pin_from(s: Seq<char>, i: int, a: int)
    requires
        0 <= i <= a <= s.len(),
        forall|k: int| i <= k < a ==> is_space_char(s[k]),
        a == s.len() || !is_space_char(s[a]),
    ensures
        skip_space(s, i) == a,
    decreases a - i,
{
    if i < a {
        lemma_skip_space_pin_from(s, i + 1, a);
    }
}

proof fn lemma_rskip_space_pin(s: Seq<char>, b: int)
    requires
        0 <= b <= s.len(),
        forall|k: int| b <= k < s.len() ==> is_space_char(s[k]),
        b == 0 || !is_space_char(s[b - 1]),
    ensures
        rskip_space(s, s.len() as int) == b,
{
    lemma_rskip_space_pin_from(s, s.len() as int, b);
}

proof fn lemma_rskip_space_pin_from(s: Seq<char>, j: int, b: int)
    requires
        0 <= b <= j <= s.len(),
        forall|k: int| b <= k < j ==> is_space_char(s[k]),
        b == 0 || !is_space_char(s[b - 1]),
    ensures
        rskip_space(s, j) == b,
    decreases j - b,
{
    if b < j {
        lemma_rskip_space_pin_from(s, j - 1, b);
    }
}

/// Removes surrounding whitespace, by code points.
fn trim_chars(s: &str) -> (r: String)
    ensures
        r@ == trim_spec(s@),
{
    let n = s.unicode_len();
    let mut a: usize = 0;
    while a < n && is_space(s.get_char(a))
        invariant
            n == s@.len(),
            a <= n,
            forall|k: int| 0 <= k < a ==> is_space_char(s@[k]),
        decreases n - a,
    {
        a = a + 1;
    }
    proof {
        lemma_skip_space_pin(s@, a as int);
    }
    let mut b: usize = n;
    while b > 0 && is_space(s.get_char(b - 1))
        invariant
            n == s@.len(),
            b <= n,
            forall|k: int| b <= k < n ==> is_space_char(s@[k]),
        decreases b,
    {
        b = b - 1;
    }
    proof {
        lemma_rskip_space_pin(s@, b as int);
    }
    if a <= b {
        s.substring_char(a, b).to_owned()
    } else {
        let r = String::new();
        r
    }
}

/// Reads a page title out of generated HTML: the text of the first
/// `<title>` element; failing that, the text of the first `<h1>`
/// element; failing that, a fixed fallback. The result is exactly
/// [`title_of_html`] of the text, trimmed of surrounding whitespace.
pub fn extract_title_from_html(html: &str) -> (title: String)
    ensures
        title@ == title_of_html(html@),
{
    proof {
        reveal_strlit("<title>");
        reveal_strlit("</title>");
        reveal_strlit("<h1");
        reveal_strlit("</h1>");
        reveal_strlit(">");
        reveal_strlit("Untitled conversation");
        assert(("<title>"@) =~= title_open());
        assert(("</title>"@) =~= title_close());
        assert(("<h1"@) =~= h1_open());
        assert(("</h1>"@) =~= h1_close());
        assert((">"@) =~= seq!['>']);
        assert(("Untitled conversation"@) =~= untitled_conversation());
    }
    if let Some(t0) = find_sub(html, "<title>", 0) {
        if let Some(e) = find_sub(html, "</title>", t0) {
            if e >= 7 && e - 7 >= t0 {
                let inner = html.substring_char(t0 + 7, e);
                return trim_chars(inner);
            }
        }
    }
    if let Some(h0) = find_sub(html, "<h1", 0) {
        if let Some(e) = find_sub(html, "</h1>", h0) {
            if let Some(g) = find_sub(html, ">", h0) {
                if g < e {
                    let inner = html.substring_char(g + 1, e);
                    return trim_chars(inner);
                }
            }
        }
    }
    "Untitled conversation".to_owned()
}

} // verus!

//! Rich-text import: stripping RTF control codes from a document so its
//! plain text can be re-imported.  Groups deeper than the main content
//! are dropped, control words are skipped along with their delimiter
//! space, and the escapes `\\`, `\{`, `\}` keep their character.

use vstd::prelude::*;

verus! {

use vstd::string::StrSliceExecFns;

/// What `char::is_alphabetic` holds of a character; a Unicode property
/// of the character alone.
pub uninterp spec fn alphabetic(c: char) -> bool;

/// Relies on `char::is_alphabetic`: the Unicode alphabetic property.
#[verifier::external_body]
fn char_is_alphabetic(c: char) -> (r: bool)
    ensures
        r == alphabetic(c),
{
    c.is_alphabetic()
}

/// What `char::is_numeric` holds of a character; a Unicode property of
/// the character alone.
pub uninterp spec fn numeric(c: char) -> bool;

/// Relies on `char::is_numeric`: the Unicode numeric property.
#[verifier::external_body]
fn char_is_numeric(c: char) -> (r: bool)
    ensures
        r == numeric(c),
{
    c.is_numeric()
}

/// What `char::is_whitespace` holds of a character; a Unicode property
/// of the character alone.
pub uninterp spec fn whitespace(c: char) -> bool;

/// Relies on `char::is_whitespace`: the Unicode whitespace property.
#[verifier::external_body]
fn char_is_whitespace(c: char) -> (r: bool)
    ensures
        r == whitespace(c),
{
    c.is_whitespace()
}

/// A character that continues an RTF control word.
pub open spec fn word_char(c: char) -> bool {
    alphabetic(c) || c == '-' || numeric(c)
}

fn is_word_char(c: char) -> (r: bool)
    ensures
        r == word_char(c),
{
    char_is_alphabetic(c) || c == '-' || char_is_numeric(c)
}

/// First index at or after `i` that does not continue a control word.
pub open spec fn skip_word_end(s: Seq<char>, i: int) -> int
    decreases s.len() - i,
{
    if i < 0 || i >= s.len() {
        i
    } else if word_char(s[i]) {
        skip_word_end(s, i + 1)
    } else {
        i
    }
}

proof fn lemma_skip_word_end_ge(s: Seq<char>, i: int)
    ensures
        skip_word_end(s, i) >= i,
    decreases s.len() - i,
{
    if 0 <= i < s.len() && word_char(s[i]) {
        lemma_skip_word_end_ge(s, i + 1);
    }
}

/// The untrimmed extraction: group braces adjust the depth, a backslash
/// skips its control word (and one delimiter space) but keeps an escaped
/// brace or backslash, and ordinary characters survive while the depth
/// stays in the main content.
pub open spec fn rtf_strip(s: Seq<char>, i: int, depth: int) -> Seq<char>
    decreases s.len() - i,
        when 0 <= i
    via rtf_strip_decreases
{
    if i >= s.len() {
        Seq::empty()
    } else {
        let c = s[i];
        if c == '{' {
            rtf_strip(s, i + 1, depth + 1)
        } else if c == '}' {
            rtf_strip(s, i + 1, if depth > 0 {
                depth - 1
            } else {
                0
            })
        } else if c == '\\' {
            let w = skip_word_end(s, i + 1);
            let j = if w < s.len() && s[w] == ' ' {
                w + 1
            } else {
                w
            };
            if j < s.len() && (s[j] == '\\' || s[j] == '{' || s[j] == '}') {
                seq![s[j]] + rtf_strip(s, j + 1, depth)
            } else {
                rtf_strip(s, j, depth)
            }
        } else if depth <= 2 {
            seq![c] + rtf_strip(s, i + 1, depth)
        } else {
            rtf_strip(s, i + 1, depth)
        }
    }
}

proof fn lemma_skip_word_end_le(s: Seq<char>, i: int)
    requires
        i <= s.len(),
    ensures
        skip_word_end(s, i) <= s.len(),
    decreases s.len() - i,
{
    if 0 <= i < s.len() && word_char(s[i]) {
        lemma_skip_word_end_le(s, i + 1);
    }
}

#[via_fn]
proof fn rtf_strip_decreases(s: Seq<char>, i: int, depth: int) {
    lemma_skip_word_end_ge(s, i + 1);
    if i < s.len() {
        lemma_skip_word_end_le(s, i + 1);
    }
}

/// Leading whitespace dropped.
pub open spec fn trim_start(s: Seq<char>) -> Seq<char>
    decreases s.len(),
{
    if s.len() > 0 && whitespace(s[0]) {
        trim_start(s.skip(1))
    } else {
        s
    }
}

/// Trailing whitespace dropped.
pub open spec fn trim_end(s: Seq<char>) -> Seq<char>
    decreases s.len(),
{
    if s.len() > 0 && whitespace(s.last()) {
        trim_end(s.drop_last())
    } else {
        s
    }
}

/// Both ends trimmed, as `str::trim` leaves a string.
pub open spec fn trim_of(s: Seq<char>) -> Seq<char> {
    trim_end(trim_start(s))
}

/// The whole extraction: strip from the start at depth zero, then trim.
pub open spec fn spec_rtf_text(s: Seq<char>) -> Seq<char> {
    trim_of(rtf_strip(s, 0, 0))
}

proof fn lemma_trim_start_at(s: Seq<char>, a: int)
    requires
        0 <= a <= s.len(),
        forall|k: int| 0 <= k < a ==> whitespace(s[k]),
        a < s.len() ==> !whitespace(s[a as int]),
    ensures
        trim_start(s) == s.skip(a),
    decreases a,
{
    if a == 0 {
        assert(s.skip(0) =~= s);
    } else {
        assert(whitespace(s[0]));
        assert(forall|k: int| 0 <= k < a - 1 ==> whitespace(s.skip(1)[k]) == whitespace(s[k + 1]));
        lemma_trim_start_at(s.skip(1), a - 1);
        assert(s.skip(1).skip(a - 1) =~= s.skip(a));
    }
}

proof fn lemma_trim_end_at(s: Seq<char>, b: int)
    requires
        0 <= b <= s.len(),
        forall|k: int| b <= k < s.len() ==> whitespace(s[k]),
        b > 0 ==> !whitespace(s[b - 1]),
    ensures
        trim_end(s) == s.take(b),
    decreases s.len() - b,
{
    if b == s.len() {
        assert(s.take(b) =~= s);
    } else {
        assert(whitespace(s.last()));
        assert(forall|k: int|
            b <= k < s.drop_last().len() ==> whitespace(s.drop_last()[k]) == whitespace(s[k]));
        lemma_trim_end_at(s.drop_last(), b);
        assert(s.drop_last().take(b) =~= s.take(b));
    }
}

/// Trims both ends of a string.
fn trim_text(s: &String) -> (r: String)
    ensures
        r@ == trim_of(s@),
{
    let base = s.as_str();
    let len = base.unicode_len();
    let mut a: usize = 0;
    while a < len && char_is_whitespace(base.get_char(a))
        invariant
            a <= len,
            len == s@.len(),
            base@ == s@,
            forall|k: int| 0 <= k < a ==> whitespace(s@[k]),
        decreases len - a,
    {
        a += 1;
    }
    proof {
        lemma_trim_start_at(s@, a as int);
    }
    let mut b: usize = len;
    while b > a && char_is_whitespace(base.get_char(b - 1))
        invariant
            a <= b <= len,
            len == s@.len(),
            base@ == s@,
            forall|k: int| 0 <= k < a ==> whitespace(s@[k]),
            forall|k: int| b <= k < len ==> whitespace(s@[k]),
        decreases b,
    {
        b -= 1;
    }
    let ghost t = s@.skip(a as int);
    proof {
        assert forall|k: int| b - a <= k < t.len() implies whitespace(t[k]) by {
            assert(t[k] == s@[k + a]);
        }
        if b > a {
            assert(t[b - a - 1] == s@[b - 1]);
        }
        lemma_trim_end_at(t, b - a);
        assert(t.take(b - a) =~= s@.subrange(a as int, b as int));
    }
    base.substring_char(a, b).to_owned()
}

/// Strips RTF control codes, keeping the main content's text, and trims
/// the result.
pub fn extract_text_from_rtf(rtf: &str) -> (r: String)
    ensures
        r@ == spec_rtf_text(rtf@),
{
    let len = rtf.unicode_len();
    let mut out = String::new();
    let mut i: usize = 0;
    let mut depth: usize = 0;
    while i < len
        invariant
            i <= len,
            depth <= i,
            len == rtf@.len(),
            rtf_strip(rtf@, 0, 0) == out@ + rtf_strip(rtf@, i as int, depth as int),
        decreases len - i,
    {
        let c = rtf.get_char(i);
        if c == '{' {
            depth += 1;
            i += 1;
        } else if c == '}' {
            if depth > 0 {
                depth -= 1;
            }
            i += 1;
        } else if c == '\\' {
            let mut w: usize = i + 1;
            while w < len && is_word_char(rtf.get_char(w))
                invariant
                    i + 1 <= w <= len,
                    len == rtf@.len(),
                    skip_word_end(rtf@, i + 1) == skip_word_end(rtf@, w as int),
                decreases len - w,
            {
                w += 1;
            }
            proof {
                assert(skip_word_end(rtf@, w as int) == w as int);
            }
            let j: usize = if w < len && rtf.get_char(w) == ' ' {
                w + 1
            } else {
                w
            };
            if j < len {
                let e = rtf.get_char(j);
                if e == '\\' || e == '{' || e == '}' {
                    let ghost prev = out@;
                    out.push(e);
                    proof {
                        assert(rtf_strip(rtf@, i as int, depth as int) == seq![rtf@[j as int]]
                            + rtf_strip(rtf@, j + 1, depth as int));
                        assert(prev + (seq![rtf@[j as int]] + rtf_strip(rtf@, j + 1, depth as int))
                            =~= out@ + rtf_strip(rtf@, j + 1, depth as int));
                    }
                    i = j + 1;
                } else {
                    proof {
                        assert(rtf_strip(rtf@, i as int, depth as int) == rtf_strip(
                            rtf@,
                            j as int,
                            depth as int,
                        ));
                    }
                    i = j;
                }
            } else {
                proof {
                    assert(rtf_strip(rtf@, i as int, depth as int) == rtf_strip(
                        rtf@,
                        j as int,
                        depth as int,
                    ));
                }
                i = j;
            }
        } else if depth <= 2 {
            let ghost prev = out@;
            out.push(c);
            proof {
                assert(rtf_strip(rtf@, i as int, depth as int) == seq![rtf@[i as int]] + rtf_strip(
                    rtf@,
                    i + 1,
                    depth as int,
                ));
                assert(prev + (seq![rtf@[i as int]] + rtf_strip(rtf@, i + 1, depth as int)) =~= out@
                    + rtf_strip(rtf@, i + 1, depth as int));
            }
            i += 1;
        } else {
            i += 1;
        }
    }
    proof {
        assert(rtf_strip(rtf@, len as int, depth as int) =~= Seq::<char>::empty());
        assert(out@ =~= rtf_strip(rtf@, 0, 0));
    }
    trim_text(&out)
}

} // verus!

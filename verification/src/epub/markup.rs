//! Which EPUB entries are text, and removal of `<meta name="generator">`
//! tags from markup.

use crate::text::{
    ascii_lower, ascii_lowercase, collect_chars, contains, ends_with, has_infix, has_prefix,
    has_suffix, push_char, starts_with,
};
use vstd::prelude::*;

verus! {

/// Entries whose bytes are UTF-8 markup/text that may be rewritten: the
/// name, lowercased, ends with one of the text extensions.
pub open spec fn text_entry_name(name: Seq<char>) -> bool {
    let lower = ascii_lower(name);
    ||| has_suffix(lower, ".xhtml"@)
    ||| has_suffix(lower, ".html"@)
    ||| has_suffix(lower, ".htm"@)
    ||| has_suffix(lower, ".opf"@)
    ||| has_suffix(lower, ".ncx"@)
    ||| has_suffix(lower, ".xml"@)
    ||| has_suffix(lower, ".css"@)
    ||| has_suffix(lower, ".svg"@)
    ||| has_suffix(lower, ".txt"@)
    ||| has_suffix(lower, ".md"@)
}

/// Entries whose bytes are UTF-8 markup/text we may rewrite.
pub fn is_text_entry(name: &str) -> (r: bool)
    ensures
        r == text_entry_name(name@),
{
    let chars = collect_chars(name);
    let lower = ascii_lowercase(&chars);
    ends_with(&lower, ".xhtml") || ends_with(&lower, ".html") || ends_with(&lower, ".htm")
        || ends_with(&lower, ".opf") || ends_with(&lower, ".ncx") || ends_with(&lower, ".xml")
        || ends_with(&lower, ".css") || ends_with(&lower, ".svg") || ends_with(&lower, ".txt")
        || ends_with(&lower, ".md")
}

/// The first position at or after `from` that holds `c`.
pub open spec fn first_from(s: Seq<char>, from: int, c: char) -> Option<int>
    decreases s.len() - from,
{
    if from < 0 || from >= s.len() {
        None
    } else if s[from] == c {
        Some(from)
    } else {
        first_from(s, from + 1, c)
    }
}

proof fn lemma_first_from_skip(s: Seq<char>, i: int, j: int, c: char)
    requires
        0 <= i <= j,
        forall|k: int| i <= k < j && k < s.len() ==> s[k] != c,
    ensures
        first_from(s, i, c) == first_from(s, j, c) || (i < s.len() && j >= s.len() && first_from(s, i, c) is None && first_from(s, j, c) is None),
    decreases j - i,
{
    if i < j {
        lemma_first_from_skip(s, i + 1, j, c);
    }
}

pub proof fn lemma_first_from_found(s: Seq<char>, i: int, c: char)
    ensures
        first_from(s, i, c) matches Some(e) ==> i <= e < s.len() && s[e] == c,
    decreases s.len() - i,
{
    if 0 <= i < s.len() && s[i] != c {
        lemma_first_from_found(s, i + 1, c);
    }
}

/// A `<meta` tag whose name attribute is `generator` (matched case-insensitively).
pub open spec fn generator_meta_tag(tag: Seq<char>) -> bool {
    let lower = ascii_lower(tag);
    has_prefix(lower, "<meta"@) && (has_infix(lower, "name=\"generator\""@) || has_infix(
        lower,
        "name='generator'"@,
    ))
}

/// Removal of generator meta tags from position `i` on: each `<` that starts
/// a tag (up to the next `>`) which is a generator meta tag drops the tag and
/// one newline right after it; everything else is copied. Returns the kept
/// text and the number of tags removed.
pub open spec fn strip_meta_from(s: Seq<char>, i: int) -> (Seq<char>, nat)
    decreases s.len() - i,
{
    if i < 0 || i >= s.len() {
        (seq![], 0)
    } else if s[i] == '<' && first_from(s, i, '>') is Some && i <= first_from(s, i, '>')->0 < s.len()
        && generator_meta_tag(s.subrange(i, first_from(s, i, '>')->0 + 1)) {
        let end = first_from(s, i, '>')->0;
        let next = if end + 1 < s.len() && s[end + 1] == '\n' {
            end + 2
        } else {
            end + 1
        };
        let rest = strip_meta_from(s, next);
        (rest.0, rest.1 + 1)
    } else {
        let rest = strip_meta_from(s, i + 1);
        (seq![s[i]] + rest.0, rest.1)
    }
}

/// `html` without its generator meta tags, and how many were removed.
pub open spec fn strip_generator_meta_spec(html: Seq<char>) -> (Seq<char>, nat) {
    strip_meta_from(html, 0)
}

fn find_from(s: &Vec<char>, from: usize, c: char) -> (r: Option<usize>)
    requires
        from <= s@.len(),
    ensures
        r matches Some(e) ==> first_from(s@, from as int, c) == Some(e as int),
        r is None ==> first_from(s@, from as int, c) is None,
{
    let n = s.len();
    let mut j = from;
    while j < n
        invariant
            n == s@.len(),
            from <= j <= n,
            forall|k: int| from <= k < j ==> s@[k] != c,
        decreases n - j,
    {
        if s[j] == c {
            proof {
                lemma_first_from_skip(s@, from as int, j as int, c);
            }
            return Some(j);
        }
        j += 1;
    }
    proof {
        lemma_first_from_skip(s@, from as int, j as int, c);
    }
    None
}

fn sub_vec(s: &Vec<char>, from: usize, to: usize) -> (r: Vec<char>)
    requires
        from <= to <= s@.len(),
    ensures
        r@ == s@.subrange(from as int, to as int),
{
    let mut r: Vec<char> = Vec::new();
    for k in from..to
        invariant
            to <= s@.len(),
            r@ == s@.subrange(from as int, k as int),
    {
        r.push(s[k]);
        assert(s@.subrange(from as int, k + 1) =~= s@.subrange(from as int, k as int).push(s@[k as int]));
    }
    r
}

proof fn lemma_strip_meta_prefix(s: Seq<char>, i: int)
    requires
        0 <= i < s.len(),
    ensures
        !(s[i] == '<' && first_from(s, i, '>') is Some && i <= first_from(s, i, '>')->0 < s.len()
            && generator_meta_tag(s.subrange(i, first_from(s, i, '>')->0 + 1)))
            ==> strip_meta_from(s, i) == (seq![s[i]] + strip_meta_from(s, i + 1).0, strip_meta_from(s, i + 1).1),
{
}

/// Remove any `<meta ... name="generator" ...>` tag (self-closed or open) from
/// markup. Generic build-tool signatures are provenance breadcrumbs, not content.
pub fn strip_generator_meta(html: &str) -> (r: (String, usize))
    ensures
        r.0@ == strip_generator_meta_spec(html@).0,
        r.1 == strip_generator_meta_spec(html@).1,
{
    let chars = collect_chars(html);
    let ghost s = chars@;
    let n = chars.len();
    let mut out = String::new();
    let mut removed: usize = 0;
    let mut i: usize = 0;
    while i < n
        invariant
            n == s.len(),
            s == chars@,
            s == html@,
            i <= n,
            removed <= i,
            out@ + strip_meta_from(s, i as int).0 == strip_meta_from(s, 0).0,
            removed + strip_meta_from(s, i as int).1 == strip_meta_from(s, 0).1,
        decreases n - i,
    {
        if chars[i] == '<' {
            if let Some(end) = find_from(&chars, i, '>') {
                proof {
                    lemma_first_from_found(s, i as int, '>');
                }
                let tag = sub_vec(&chars, i, end + 1);
                let lower = ascii_lowercase(&tag);
                if starts_with(&lower, "<meta") && (contains(&lower, "name=\"generator\"")
                    || contains(&lower, "name='generator'")) {
                    removed += 1;
                    let mut next = end + 1;
                    if next < n && chars[next] == '\n' {
                        next += 1;
                    }
                    i = next;
                    continue;
                }
            }
        }
        let ch = chars[i];
        let ghost before = out@;
        push_char(&mut out, ch);
        proof {
            lemma_strip_meta_prefix(s, i as int);
            assert(before + strip_meta_from(s, i as int).0 =~= out@ + strip_meta_from(s, i + 1).0);
        }
        i += 1;
    }
    assert(out@ =~= out@ + strip_meta_from(s, n as int).0);
    (out, removed)
}

/// One removal pass keeps at most the characters it does not remove: the
/// kept text and the count of removed tags together are no longer than the
/// text from `i` on.
pub proof fn lemma_strip_meta_shrinks(s: Seq<char>, i: int)
    requires
        0 <= i <= s.len(),
    ensures
        strip_meta_from(s, i).0.len() + strip_meta_from(s, i).1 <= s.len() - i,
    decreases s.len() - i,
{
    if i < s.len() {
        lemma_first_from_found(s, i, '>');
        if s[i] == '<' && first_from(s, i, '>') is Some && i <= first_from(s, i, '>')->0 < s.len()
            && generator_meta_tag(s.subrange(i, first_from(s, i, '>')->0 + 1)) {
            let end = first_from(s, i, '>')->0;
            let next = if end + 1 < s.len() && s[end + 1] == '\n' {
                end + 2
            } else {
                end + 1
            };
            lemma_strip_meta_shrinks(s, next);
        } else {
            lemma_strip_meta_shrinks(s, i + 1);
        }
    }
}

/// A removal pass that removes nothing copies the text.
pub proof fn lemma_strip_meta_none_copies(s: Seq<char>, i: int)
    requires
        0 <= i <= s.len(),
        strip_meta_from(s, i).1 == 0,
    ensures
        strip_meta_from(s, i).0 == s.subrange(i, s.len() as int),
    decreases s.len() - i,
{
    if i < s.len() {
        lemma_strip_meta_none_copies(s, i + 1);
        assert(seq![s[i]] + s.subrange(i + 1, s.len() as int) =~= s.subrange(i, s.len() as int));
    } else {
        assert(s.subrange(i, s.len() as int) =~= Seq::<char>::empty());
    }
}

pub proof fn lemma_strip_generator_meta_bounds(html: Seq<char>)
    ensures
        strip_generator_meta_spec(html).0.len() + strip_generator_meta_spec(html).1 <= html.len(),
        strip_generator_meta_spec(html).1 == 0 ==> strip_generator_meta_spec(html).0 == html,
{
    lemma_strip_meta_shrinks(html, 0);
    if strip_generator_meta_spec(html).1 == 0 {
        lemma_strip_meta_none_copies(html, 0);
        assert(html.subrange(0, html.len() as int) =~= html);
    }
}

/// Removal of generator meta tags, repeated until a pass removes none:
/// removing a tag can join the text around it into another tag. Returns the
/// kept text and the number of tags removed in all.
pub open spec fn strip_all_generator_meta_spec(html: Seq<char>) -> (Seq<char>, nat)
    decreases html.len(),
{
    let once = strip_generator_meta_spec(html);
    if once.1 == 0 {
        once
    } else {
        proof {
            lemma_strip_generator_meta_bounds(html);
        }
        let rest = strip_all_generator_meta_spec(once.0);
        (rest.0, once.1 + rest.1)
    }
}

/// Repeated removal keeps at most the characters it does not remove, and
/// removing nothing leaves the text as it is.
pub proof fn lemma_strip_all_bounds(html: Seq<char>)
    ensures
        strip_all_generator_meta_spec(html).0.len() + strip_all_generator_meta_spec(html).1
            <= html.len(),
        strip_all_generator_meta_spec(html).1 == 0 ==> strip_all_generator_meta_spec(html).0
            == html,
    decreases html.len(),
{
    lemma_strip_generator_meta_bounds(html);
    let once = strip_generator_meta_spec(html);
    if once.1 != 0 {
        lemma_strip_all_bounds(once.0);
    }
}

/// After repeated removal no generator meta tag is left.
pub proof fn lemma_strip_all_leaves_no_generator_meta(html: Seq<char>)
    ensures
        strip_generator_meta_spec(strip_all_generator_meta_spec(html).0).1 == 0,
    decreases html.len(),
{
    lemma_strip_generator_meta_bounds(html);
    let once = strip_generator_meta_spec(html);
    if once.1 != 0 {
        lemma_strip_all_leaves_no_generator_meta(once.0);
    }
}

/// Remove every `<meta ... name="generator" ...>` tag from markup, repeating
/// the removal until none is left.
pub fn strip_all_generator_meta(html: &str) -> (r: (String, usize))
    ensures
        r.0@ == strip_all_generator_meta_spec(html@).0,
        r.1 == strip_all_generator_meta_spec(html@).1,
{
    let length = html.unicode_len();
    let (mut cur, mut total) = strip_generator_meta(html);
    proof {
        lemma_strip_generator_meta_bounds(html@);
    }
    let mut last = total;
    while last > 0
        invariant
            length == html@.len(),
            total + cur@.len() <= html@.len(),
            last > 0 ==> strip_all_generator_meta_spec(html@) == (
                strip_all_generator_meta_spec(cur@).0,
                total as nat + strip_all_generator_meta_spec(cur@).1,
            ),
            last == 0 ==> strip_all_generator_meta_spec(html@) == (cur@, total as nat),
        decreases cur@.len() + if last > 0 {
            1int
        } else {
            0int
        },
    {
        let (next, n) = strip_generator_meta(cur.as_str());
        proof {
            lemma_strip_generator_meta_bounds(cur@);
        }
        total = total + n;
        cur = next;
        last = n;
    }
    (cur, total)
}

} // verus!

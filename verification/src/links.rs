//! Extraction of page links out of fetched page text, and helpers on page
//! addresses.  The network fetch itself happens outside the library; these
//! functions work on the decoded characters of the page.
//!
//! A link is the name between `<a href="/wiki/` and the next `"`.  Names that
//! carry a `:` belong to auxiliary namespaces and are dropped.  Only the part
//! of the page after the content marker `<div id="mw-content-text"` is
//! scanned.

use vstd::prelude::*;

verus! {

/// Relies on String::push: appends one character to the string.
#[verifier::external_body]
fn push_char(s: &mut String, c: char)
    ensures
        final(s)@ == old(s)@.push(c),
{
    s.push(c)
}

/// The pattern opens a link: `<a href="/wiki/`.
pub open spec fn anchor_pat() -> Seq<char> {
    seq!['<', 'a', ' ', 'h', 'r', 'e', 'f', '=', '"', '/', 'w', 'i', 'k', 'i', '/']
}

/// The marker that opens the content part of a page: `<div id="mw-content-text"`.
pub open spec fn marker_pat() -> Seq<char> {
    seq![
        '<', 'd', 'i', 'v', ' ', 'i', 'd', '=', '"', 'm', 'w', '-', 'c', 'o', 'n', 't', 'e',
        'n', 't', '-', 't', 'e', 'x', 't', '"',
    ]
}

/// The address prefix of a page of the encyclopedia.
pub open spec fn wiki_prefix() -> Seq<char> {
    seq![
        'h', 't', 't', 'p', 's', ':', '/', '/', 'e', 'n', '.', 'w', 'i', 'k', 'i', 'p', 'e',
        'd', 'i', 'a', '.', 'o', 'r', 'g', '/', 'w', 'i', 'k', 'i', '/',
    ]
}

fn anchor_vec() -> (r: Vec<char>)
    ensures
        r@ =~= anchor_pat(),
{
    let mut v: Vec<char> = Vec::new();
    v.push('<');
    v.push('a');
    v.push(' ');
    v.push('h');
    v.push('r');
    v.push('e');
    v.push('f');
    v.push('=');
    v.push('"');
    v.push('/');
    v.push('w');
    v.push('i');
    v.push('k');
    v.push('i');
    v.push('/');
    v
}

fn marker_vec() -> (r: Vec<char>)
    ensures
        r@ =~= marker_pat(),
{
    let mut v: Vec<char> = Vec::new();
    v.push('<');
    v.push('d');
    v.push('i');
    v.push('v');
    v.push(' ');
    v.push('i');
    v.push('d');
    v.push('=');
    v.push('"');
    v.push('m');
    v.push('w');
    v.push('-');
    v.push('c');
    v.push('o');
    v.push('n');
    v.push('t');
    v.push('e');
    v.push('n');
    v.push('t');
    v.push('-');
    v.push('t');
    v.push('e');
    v.push('x');
    v.push('t');
    v.push('"');
    v
}

/// The pattern occurs in `s` at position `i`.
pub open spec fn matches_at(s: Seq<char>, pat: Seq<char>, i: int) -> bool {
    0 <= i && i + pat.len() <= s.len() && s.subrange(i, i + pat.len()) == pat
}

/// The first position at or after `from` where the pattern occurs.
pub open spec fn first_at_or_after(s: Seq<char>, pat: Seq<char>, from: int) -> Option<int>
    decreases s.len() - from when 0 <= from
{
    if from < 0 || pat.len() <= 0 || from + pat.len() > s.len() {
        None
    } else if s.subrange(from, from + pat.len()) == pat {
        Some(from)
    } else {
        first_at_or_after(s, pat, from + 1)
    }
}

/// What `first_at_or_after` finds is a first occurrence, and nothing before it
/// is one.
pub proof fn lemma_first_at_correct(s: Seq<char>, pat: Seq<char>, from: int)
    requires
        pat.len() >= 1,
        0 <= from,
    ensures
        first_at_or_after(s, pat, from) matches Some(k) ==> from <= k
            && matches_at(s, pat, k) && forall|q: int| from <= q < k ==> !matches_at(s, pat, q),
        first_at_or_after(s, pat, from) is None ==> forall|q: int|
            from <= q ==> !matches_at(s, pat, q),
    decreases s.len() - from,
{
    if from + pat.len() > s.len() {
        assert forall|q: int| from <= q implies !matches_at(s, pat, q) by {}
    } else if s.subrange(from, from + pat.len()) == pat {
    } else {
        lemma_first_at_correct(s, pat, from + 1);
        assert(!matches_at(s, pat, from));
    }
}

/// The links extracted from position `from` on: at each occurrence of the
/// anchor pattern the name runs to the next quote; a name without `:` counts.
/// Scanning continues at the closing quote; with no anchor or no closing
/// quote left, nothing more is extracted.
pub open spec fn links_from(s: Seq<char>, from: int) -> Seq<Seq<char>>
    decreases s.len() - from when 0 <= from && from <= s.len() via links_from_dec
{
    match first_at_or_after(s, anchor_pat(), from) {
        None => Seq::<Seq<char>>::empty(),
        Some(k) => {
            let ns = k + anchor_pat().len();
            match first_at_or_after(s, seq!['"'], ns) {
                None => Seq::<Seq<char>>::empty(),
                Some(e) => {
                    let name = s.subrange(ns, e);
                    let rest = links_from(s, e);
                    if !name.contains(':') {
                        seq![name] + rest
                    } else {
                        rest
                    }
                },
            }
        },
    }
}

#[via_fn]
proof fn links_from_dec(s: Seq<char>, from: int) {
    if 0 <= from && from <= s.len() {
        lemma_first_at_correct(s, anchor_pat(), from);
        match first_at_or_after(s, anchor_pat(), from) {
            Some(k) => {
                let ns = k + anchor_pat().len();
                lemma_first_at_correct(s, seq!['"'], ns);
                match first_at_or_after(s, seq!['"'], ns) {
                    Some(e) => {
                        assert(matches_at(s, seq!['"'], e));
                    },
                    None => {},
                }
            },
            None => {},
        }
    }
}

/// All links of a page: the scan starts at the content marker and yields
/// nothing when the page has no content part.
pub open spec fn extracted_links(s: Seq<char>) -> Seq<Seq<char>> {
    match first_at_or_after(s, marker_pat(), 0) {
        None => Seq::<Seq<char>>::empty(),
        Some(b) => links_from(s, b),
    }
}

/// The first occurrence of the pattern in `hay` at or after `from`.
fn find_pattern(hay: &Vec<char>, from: usize, pat: &Vec<char>) -> (r: Option<usize>)
    requires
        pat@.len() >= 1,
    ensures
        r matches Some(k) ==> first_at_or_after(hay@, pat@, from as int) == Some(k as int)
            && from <= k && k + pat@.len() <= hay@.len(),
        r is None ==> first_at_or_after(hay@, pat@, from as int) is None,
{
    proof {
        lemma_first_at_correct(hay@, pat@, from as int);
    }
    let n = hay.len();
    let m = pat.len();
    if from >= n || m > n - from {
        proof {
            assert forall|q: int| from <= q implies !matches_at(hay@, pat@, q) by {}
            lemma_no_match_no_first(hay@, pat@, from as int);
        }
        return None;
    }
    let mut i: usize = from;
    while i <= n - m
        invariant
            m >= 1,
            m <= n,
            n == hay@.len(),
            m == pat@.len(),
            from <= i <= n - m + 1,
            forall|q: int| from <= q < i ==> !matches_at(hay@, pat@, q),
        decreases n - i,
    {
        let mut j: usize = 0;
        let mut hit = true;
        while j < m
            invariant
                m == pat@.len(),
                n == hay@.len(),
                i + m <= n,
                0 <= j <= m,
                hit ==> forall|q: int| 0 <= q < j ==> hay@[i + q] == pat@[q],
                !hit ==> j == m && !matches_at(hay@, pat@, i as int),
            decreases m - j,
        {
            if hay[i + j] != pat[j] {
                proof {
                    if matches_at(hay@, pat@, i as int) {
                        assert(pat@[j as int] == hay@.subrange(i as int, i + m)[j as int]);
                    }
                }
                hit = false;
                j = m;
            } else {
                proof {
                    assert forall|q: int| 0 <= q < j + 1 implies hay@[i + q] == pat@[q] by {}
                }
                j = j + 1;
            }
        }
        if hit {
            proof {
                assert(hay@.subrange(i as int, i + m) =~= pat@);
                assert(matches_at(hay@, pat@, i as int));
                lemma_first_at_found(hay@, pat@, from as int, i as int);
            }
            return Some(i);
        }
        i = i + 1;
    }
    proof {
        lemma_no_match_no_first(hay@, pat@, from as int);
    }
    None
}

/// Where no position at or after `from` matches, there is no first occurrence.
proof fn lemma_no_match_no_first(s: Seq<char>, pat: Seq<char>, from: int)
    requires
        pat.len() >= 1,
        0 <= from,
        forall|q: int| from <= q ==> !matches_at(s, pat, q),
    ensures
        first_at_or_after(s, pat, from) is None,
{
    lemma_first_at_correct(s, pat, from);
    match first_at_or_after(s, pat, from) {
        Some(k) => {
            assert(matches_at(s, pat, k));
        },
        None => {},
    }
}

/// A match with no earlier match is the first occurrence.
proof fn lemma_first_at_found(s: Seq<char>, pat: Seq<char>, from: int, k: int)
    requires
        pat.len() >= 1,
        0 <= from <= k,
        matches_at(s, pat, k),
        forall|q: int| from <= q < k ==> !matches_at(s, pat, q),
    ensures
        first_at_or_after(s, pat, from) == Some(k),
{
    lemma_first_at_correct(s, pat, from);
    match first_at_or_after(s, pat, from) {
        None => {
            assert(matches_at(s, pat, k));
        },
        Some(k2) => {
            if k2 < k {
                assert(!matches_at(s, pat, k2));
            } else if k < k2 {
                assert(!matches_at(s, pat, k));
            }
        },
    }
}

/// The links of a fetched page, in the order they occur.  The caller hands in
/// the decoded characters of the page text.
pub fn extract_links(html: &Vec<char>) -> (r: Vec<String>)
    ensures
        r@.map_values(|s: String| s@) =~= extracted_links(html@),
{
    let marker = marker_vec();
    let mut res: Vec<String> = Vec::new();
    let beg = find_pattern(html, 0, &marker);
    let mut pos: usize;
    match beg {
        None => {
            return res;
        },
        Some(b) => {
            pos = b;
        },
    }
    let anchor = anchor_vec();
    let mut quote: Vec<char> = Vec::new();
    quote.push('"');
    let n = html.len();
    loop
        invariant
            n == html@.len(),
            0 <= pos <= n,
            anchor@ =~= anchor_pat(),
            quote@ =~= seq!['"'],
            res@.map_values(|s: String| s@) + links_from(html@, pos as int) =~= extracted_links(
                html@,
            ),
        decreases n - pos,
    {
        let k = match find_pattern(html, pos, &anchor) {
            None => {
                return res;
            },
            Some(k) => k,
        };
        let ns = k + anchor.len();
        let e = match find_pattern(html, ns, &quote) {
            None => {
                return res;
            },
            Some(e) => e,
        };
        let ghost res0 = res@;
        let mut name = String::new();
        let mut has_colon = false;
        let mut idx: usize = ns;
        while idx < e
            invariant
                n == html@.len(),
                ns <= idx <= e,
                e <= n,
                name@ =~= html@.subrange(ns as int, idx as int),
                has_colon == html@.subrange(ns as int, idx as int).contains(':'),
            decreases e - idx,
        {
            let ghost sofar = name@;
            let c = html[idx];
            push_char(&mut name, c);
            if c == ':' {
                has_colon = true;
            }
            proof {
                assert(html@.subrange(ns as int, idx + 1) =~= sofar.push(c));
                if html@.subrange(ns as int, idx + 1).contains(':') && !sofar.contains(':')
                    && c != ':' {
                    let q = choose|q: int|
                        0 <= q < sofar.push(c).len() && sofar.push(c)[q] == ':';
                    assert(q < sofar.len() && sofar[q] == ':');
                }
                if sofar.contains(':') {
                    let q = choose|q: int| 0 <= q < sofar.len() && sofar[q] == ':';
                    assert(sofar.push(c)[q] == ':');
                }
                if c == ':' {
                    assert(sofar.push(c)[sofar.len() as int] == ':');
                }
            }
            idx = idx + 1;
        }
        if !has_colon {
            res.push(name);
            proof {
                assert(res@.map_values(|s: String| s@) =~= res0.map_values(|s: String| s@)
                    + seq![html@.subrange(ns as int, e as int)]);
            }
        }
        pos = e;
    }
}

fn wiki_prefix_vec() -> (r: Vec<char>)
    ensures
        r@ =~= wiki_prefix(),
{
    let mut v: Vec<char> = Vec::new();
    v.push('h');
    v.push('t');
    v.push('t');
    v.push('p');
    v.push('s');
    v.push(':');
    v.push('/');
    v.push('/');
    v.push('e');
    v.push('n');
    v.push('.');
    v.push('w');
    v.push('i');
    v.push('k');
    v.push('i');
    v.push('p');
    v.push('e');
    v.push('d');
    v.push('i');
    v.push('a');
    v.push('.');
    v.push('o');
    v.push('r');
    v.push('g');
    v.push('/');
    v.push('w');
    v.push('i');
    v.push('k');
    v.push('i');
    v.push('/');
    v
}

/// Whether an address begins with the page prefix of the encyclopedia.  The
/// network probe of the address happens outside the library; this is the
/// checkable half of address validation.
pub fn has_wiki_prefix(url: &Vec<char>) -> (r: bool)
    ensures
        r == matches_at(url@, wiki_prefix(), 0),
{
    let prefix = wiki_prefix_vec();
    let found = find_pattern(url, 0, &prefix);
    match found {
        Some(k) => {
            if k == 0 {
                proof {
                    lemma_first_at_correct(url@, prefix@, 0);
                }
                true
            } else {
                proof {
                    lemma_first_at_correct(url@, prefix@, 0);
                }
                false
            }
        },
        None => {
            proof {
                lemma_first_at_correct(url@, prefix@, 0);
            }
            false
        },
    }
}

/// The position of the last `/` in `s`; meaningful only when one occurs.
pub open spec fn last_slash_index(s: Seq<char>) -> int {
    choose|k: int|
        0 <= k < s.len() && s[k] == '/' && forall|q: int| k < q < s.len() ==> s[q] != '/'
}

/// What follows the last `/`: the page name at the tail of an address.  An
/// address without `/` is already a bare name and stays whole.
pub open spec fn tail_after_last_slash(s: Seq<char>) -> Seq<char> {
    if s.contains('/') {
        s.subrange(last_slash_index(s) + 1, s.len() as int)
    } else {
        s
    }
}

/// The page name at the tail of an address: the part after the last `/`, or
/// the whole address when it has none.
pub fn last_segment(url: &Vec<char>) -> (r: String)
    ensures
        r@ =~= tail_after_last_slash(url@),
{
    let n = url.len();
    let mut i: usize = n;
    let mut start: usize = 0;
    let mut found = false;
    while i > 0 && !found
        invariant
            n == url@.len(),
            0 <= i <= n,
            !found ==> start == 0 && forall|q: int| i <= q < n ==> url@[q] != '/',
            found ==> 0 < i <= n && url@[i - 1] == '/' && start == i
                && forall|q: int| i <= q < n ==> url@[q] != '/',
        decreases i + (if found { 0int } else { 1int }),
    {
        if url[i - 1] == '/' {
            found = true;
            start = i;
        } else {
            i = i - 1;
        }
    }
    proof {
        if found {
            let k0 = i - 1;
            assert(url@[k0 as int] == '/');
            assert(url@.contains('/'));
            let k = last_slash_index(url@);
            assert(0 <= k < n && url@[k] == '/' && forall|q: int| k < q < n ==> url@[q] != '/');
            if k < k0 {
                assert(url@[k0 as int] != '/');
            }
            if k0 < k {
                assert(url@[k] != '/');
            }
            assert(k == k0);
        } else {
            if url@.contains('/') {
                let q = choose|q: int| 0 <= q < url@.len() && url@[q] == '/';
                assert(url@[q] != '/');
            }
        }
    }
    let mut r = String::new();
    let mut j: usize = start;
    while j < n
        invariant
            n == url@.len(),
            start <= j <= n,
            r@ =~= url@.subrange(start as int, j as int),
        decreases n - j,
    {
        push_char(&mut r, url[j]);
        proof {
            assert(url@.subrange(start as int, j + 1) =~= url@.subrange(
                start as int,
                j as int,
            ).push(url@[j as int]));
        }
        j = j + 1;
    }
    r
}

} // verus!

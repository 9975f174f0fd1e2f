//! The pure parts of the content pipeline: splitting a post source into
//! front matter and body on the `+++` delimiter, deriving an excerpt at the
//! excerpt marker, building per-page variable mappings, excluding drafts,
//! ordering posts by date, and assembling post pages and the index.

use vstd::prelude::*;
use crate::subst::{spec_subst, substitute, VarMap};
use crate::text::{chars_to_string, str_to_chars};

verus! {

/// Per-post metadata: recognized keys of the front matter, each with its
/// default.
pub struct Metadata {
    pub title: String,
    pub date: String,
    pub draft: bool,
}

/// One published post, as collected for the index.
pub struct Post {
    pub url: String,
    pub metadata: Metadata,
    pub excerpt: String,
}

/// Whether `needle` occurs in `hay` starting at `i`.
pub open spec fn matches_at(hay: Seq<char>, needle: Seq<char>, i: int) -> bool {
    0 <= i && i + needle.len() <= hay.len()
        && hay.subrange(i, i + needle.len()) == needle
}

/// Index of the first occurrence of `needle` at or after `from`, or `-1`.
pub open spec fn first_match(hay: Seq<char>, needle: Seq<char>, from: int) -> int
    decreases hay.len() - from,
{
    if from < 0 || from + needle.len() > hay.len() {
        -1
    } else if matches_at(hay, needle, from) {
        from
    } else if from >= hay.len() {
        -1
    } else {
        first_match(hay, needle, from + 1)
    }
}

pub proof fn lemma_first_match(hay: Seq<char>, needle: Seq<char>, from: int)
    requires
        0 <= from,
    ensures
        first_match(hay, needle, from) == -1 ==>
            forall|k: int| from <= k ==> !matches_at(hay, needle, k),
        first_match(hay, needle, from) != -1 ==> {
            &&& from <= first_match(hay, needle, from)
            &&& matches_at(hay, needle, first_match(hay, needle, from))
            &&& forall|k: int| from <= k < first_match(hay, needle, from)
                ==> !matches_at(hay, needle, k)
        },
    decreases hay.len() - from,
{
    if from + needle.len() > hay.len() {
        assert forall|k: int| from <= k implies !matches_at(hay, needle, k) by {}
    } else if !matches_at(hay, needle, from) && from < hay.len() {
        lemma_first_match(hay, needle, from + 1);
    }
}

/// Find the first occurrence of `needle` in `hay` at or after `from`.
pub fn find_sub(hay: &Vec<char>, needle: &Vec<char>, from: usize) -> (r: Option<usize>)
    requires
        needle@.len() >= 1,
    ensures
        match r {
            Some(p) => p == first_match(hay@, needle@, from as int),
            None => first_match(hay@, needle@, from as int) == -1,
        },
{
    proof {
        lemma_first_match(hay@, needle@, from as int);
    }
    let n = hay.len();
    let m = needle.len();
    if from > n || m > n - from {
        return None;
    }
    let mut i: usize = from;
    while i <= n - m
        invariant
            n == hay@.len(),
            m == needle@.len(),
            1 <= m <= n,
            from <= i,
            i <= n,
            forall|k: int| from <= k < i ==> !matches_at(hay@, needle@, k),
        decreases n - i,
    {
        let mut j: usize = 0;
        let mut hit = true;
        while j < m
            invariant
                n == hay@.len(),
                m == needle@.len(),
                i + m <= n,
                0 <= j <= m,
                hit ==> forall|t: int| 0 <= t < j ==> hay@[i + t] == needle@[t],
                !hit ==> !matches_at(hay@, needle@, i as int),
            decreases m - j,
        {
            if hay[i + j] != needle[j] {
                proof {
                    if matches_at(hay@, needle@, i as int) {
                        assert(hay@.subrange(i as int, i + m)[j as int] == needle@[j as int]);
                    }
                }
                hit = false;
                j = m;
            } else {
                j += 1;
            }
        }
        if hit {
            proof {
                assert(hay@.subrange(i as int, i + m) =~= needle@);
                assert(matches_at(hay@, needle@, i as int));
                lemma_first_match(hay@, needle@, from as int);
                let p = first_match(hay@, needle@, from as int);
                assert(p != -1);
                if p < i {
                    assert(!matches_at(hay@, needle@, p));
                } else if p > i {
                    assert(!matches_at(hay@, needle@, i as int));
                }
            }
            return Some(i);
        }
        i += 1;
    }
    proof {
        lemma_first_match(hay@, needle@, from as int);
        let p = first_match(hay@, needle@, from as int);
        if p != -1 {
            assert(matches_at(hay@, needle@, p));
            assert(p + needle@.len() <= hay@.len());
            assert(from <= p < i);
        }
    }
    None
}

/// Copy a character range out of a vector.
pub fn chars_range(v: &Vec<char>, a: usize, b: usize) -> (r: Vec<char>)
    requires
        a <= b <= v@.len(),
    ensures
        r@ == v@.subrange(a as int, b as int),
{
    let mut r: Vec<char> = Vec::new();
    let mut k: usize = a;
    proof {
        assert(r@ =~= v@.subrange(a as int, a as int));
    }
    while k < b
        invariant
            a <= k <= b <= v@.len(),
            r@ == v@.subrange(a as int, k as int),
        decreases b - k,
    {
        let c = v[k];
        r.push(c);
        proof {
            assert(r@ =~= v@.subrange(a as int, k + 1));
        }
        k += 1;
    }
    r
}

/// The rendered fragment up to (excluding) the first excerpt marker, or the
/// whole fragment if the marker is absent.
pub open spec fn spec_excerpt(s: Seq<char>) -> Seq<char> {
    let p = first_match(s, "<!--excerpt-->"@, 0);
    if p >= 0 {
        s.subrange(0, p)
    } else {
        s
    }
}

/// Derive a post's excerpt from its rendered body.
pub fn excerpt_of(rendered: &str) -> (r: String)
    ensures
        r@ == spec_excerpt(rendered@),
{
    let chars = str_to_chars(rendered);
    let marker = str_to_chars("<!--excerpt-->");
    proof {
        reveal_strlit("<!--excerpt-->");
        lemma_first_match(rendered@, "<!--excerpt-->"@, 0);
    }
    match find_sub(&chars, &marker, 0) {
        Some(p) => {
            proof {
                assert(matches_at(rendered@, "<!--excerpt-->"@, p as int));
            }
            let prefix = chars_range(&chars, 0, p);
            chars_to_string(&prefix)
        },
        None => {
            let all = chars_range(&chars, 0, chars.len());
            proof {
                assert(chars@.subrange(0, chars@.len() as int) =~= rendered@);
            }
            chars_to_string(&all)
        },
    }
}

/// Why a source file could not be split into front matter and body.
#[derive(Debug, PartialEq, Eq)]
pub enum FrontMatterError {
    /// No `+++` delimiter at all: no front-matter section.
    MissingFrontMatter,
    /// Only one delimiter: no content after the front matter.
    MissingBody,
}

pub open spec fn fm_first(s: Seq<char>) -> int {
    first_match(s, "+++"@, 0)
}

pub open spec fn fm_second(s: Seq<char>) -> int {
    first_match(s, "+++"@, fm_first(s) + 3)
}

pub open spec fn fm_third(s: Seq<char>) -> int {
    first_match(s, "+++"@, fm_second(s) + 3)
}

/// The front-matter text: between the first and second delimiters.
pub open spec fn spec_front(s: Seq<char>) -> Seq<char> {
    s.subrange(fm_first(s) + 3, fm_second(s))
}

/// The body text: between the second delimiter and the third (or the end).
pub open spec fn spec_body(s: Seq<char>) -> Seq<char> {
    if fm_third(s) >= 0 {
        s.subrange(fm_second(s) + 3, fm_third(s))
    } else {
        s.subrange(fm_second(s) + 3, s.len() as int)
    }
}

/// Split a post source on the `+++` delimiter convention: anything before
/// the first delimiter is ignored, the front matter runs to the second, and
/// the body runs from there to the third delimiter or the end.
pub fn split_front_matter(source: &str) -> (r: Result<(String, String), FrontMatterError>)
    ensures
        r matches Err(FrontMatterError::MissingFrontMatter) <==> fm_first(source@) < 0,
        r matches Err(FrontMatterError::MissingBody)
            <==> (fm_first(source@) >= 0 && fm_second(source@) < 0),
        r matches Ok(p) ==> fm_first(source@) >= 0 && fm_second(source@) >= 0
            && p.0@ == spec_front(source@) && p.1@ == spec_body(source@),
        fm_first(source@) >= 0 && fm_second(source@) >= 0 ==> r is Ok,
{
    let chars = str_to_chars(source);
    let delim = str_to_chars("+++");
    let total = chars.len();
    proof {
        reveal_strlit("+++");
    }
    let m1 = match find_sub(&chars, &delim, 0) {
        Some(p) => p,
        None => {
            return Err(FrontMatterError::MissingFrontMatter);
        },
    };
    proof {
        lemma_first_match(source@, "+++"@, 0);
        assert(matches_at(source@, "+++"@, m1 as int));
        assert(m1 + "+++"@.len() <= source@.len());
        assert("+++"@.len() == 3);
        assert(m1 + 3 <= total);
        assert(fm_second(source@) == first_match(source@, "+++"@, m1 + 3));
        lemma_first_match(source@, "+++"@, m1 + 3);
    }
    let m2 = match find_sub(&chars, &delim, m1 + 3) {
        Some(p) => p,
        None => {
            return Err(FrontMatterError::MissingBody);
        },
    };
    proof {
        assert(matches_at(source@, "+++"@, m2 as int));
        assert(m2 + "+++"@.len() <= source@.len());
        assert(m2 + 3 <= total);
        assert(m1 + 3 <= m2);
        assert(fm_third(source@) == first_match(source@, "+++"@, m2 + 3));
        lemma_first_match(source@, "+++"@, m2 + 3);
    }
    let front_chars = chars_range(&chars, m1 + 3, m2);
    let body_end = match find_sub(&chars, &delim, m2 + 3) {
        Some(p) => {
            proof {
                assert(matches_at(source@, "+++"@, p as int));
            }
            p
        },
        None => chars.len(),
    };
    let body_chars = chars_range(&chars, m2 + 3, body_end);
    Ok((chars_to_string(&front_chars), chars_to_string(&body_chars)))
}

/// Lexicographic order on character sequences, as strings compare.
pub open spec fn lex_le(a: Seq<char>, b: Seq<char>) -> bool
    decreases a.len(),
{
    if a.len() == 0 {
        true
    } else if b.len() == 0 {
        false
    } else if a[0] != b[0] {
        a[0] < b[0]
    } else {
        lex_le(a.drop_first(), b.drop_first())
    }
}

/// The order is total.
pub proof fn lemma_lex_total(a: Seq<char>, b: Seq<char>)
    ensures
        lex_le(a, b) || lex_le(b, a),
    decreases a.len(),
{
    if a.len() > 0 && b.len() > 0 && a[0] == b[0] {
        lemma_lex_total(a.drop_first(), b.drop_first());
    }
}

/// Compare two strings lexicographically.
pub fn lex_le_str(a: &str, b: &str) -> (r: bool)
    ensures
        r == lex_le(a@, b@),
{
    let av = str_to_chars(a);
    let bv = str_to_chars(b);
    let mut i: usize = 0;
    proof {
        assert(av@.skip(0) =~= a@);
        assert(bv@.skip(0) =~= b@);
    }
    loop
        invariant
            av@ == a@,
            bv@ == b@,
            0 <= i <= av@.len(),
            0 <= i <= bv@.len(),
            lex_le(a@, b@) == lex_le(av@.skip(i as int), bv@.skip(i as int)),
        decreases av@.len() - i,
    {
        let ghost sa = av@.skip(i as int);
        let ghost sb = bv@.skip(i as int);
        if i == av.len() {
            assert(sa.len() == 0);
            return true;
        }
        if i == bv.len() {
            assert(sb.len() == 0 && sa.len() > 0);
            return false;
        }
        assert(sa[0] == av@[i as int] && sb[0] == bv@[i as int]);
        let ca = av[i];
        let cb = bv[i];
        if ca != cb {
            return ca < cb;
        }
        proof {
            assert(sa.drop_first() =~= av@.skip(i + 1));
            assert(sb.drop_first() =~= bv@.skip(i + 1));
        }
        i += 1;
    }
}

/// Non-draft posts, in their original order.
pub open spec fn published(posts: Seq<Post>) -> Seq<Post> {
    posts.filter(|p: Post| !p.metadata.draft)
}

/// Keep only the posts that are not drafts; order is preserved.
pub fn retain_published(posts: Vec<Post>) -> (r: Vec<Post>)
    ensures
        r@ == published(posts@),
{
    let ghost orig = posts@;
    let mut rest = posts;
    let mut r: Vec<Post> = Vec::new();
    let ghost mut done: Seq<Post> = Seq::empty();
    proof {
        reveal(Seq::filter);
        assert(published(done) =~= Seq::<Post>::empty());
        assert(done + rest@ =~= orig);
    }
    while rest.len() > 0
        invariant
            done + rest@ == orig,
            r@ == published(done),
        decreases rest@.len(),
    {
        let ghost done0 = done;
        let ghost rest0 = rest@;
        let p = rest.remove(0);
        let ghost pe = p;
        proof {
            done = done.push(pe);
        }
        if !p.metadata.draft {
            r.push(p);
        }
        proof {
            reveal(Seq::filter);
            assert(done.drop_last() =~= done0);
            assert(done.last() == pe);
            assert(rest0.remove(0) =~= rest0.drop_first());
            assert(done + rest@ =~= orig);
        }
    }
    proof {
        assert(done =~= orig);
    }
    r
}

/// Descending lexicographic order on the posts' date strings.
pub open spec fn sorted_by_date_desc(s: Seq<Post>) -> bool {
    forall|i: int, j: int| 0 <= i < j < s.len()
        ==> lex_le(#[trigger] s[j].metadata.date@, #[trigger] s[i].metadata.date@)
}

/// The order is reflexive.
pub proof fn lemma_lex_refl(a: Seq<char>)
    ensures
        lex_le(a, a),
    decreases a.len(),
{
    if a.len() > 0 {
        lemma_lex_refl(a.drop_first());
    }
}

/// The order is transitive.
pub proof fn lemma_lex_trans(a: Seq<char>, b: Seq<char>, c: Seq<char>)
    requires
        lex_le(a, b),
        lex_le(b, c),
    ensures
        lex_le(a, c),
    decreases a.len(),
{
    if a.len() > 0 && b.len() > 0 && c.len() > 0 && a[0] == b[0] && b[0] == c[0] {
        lemma_lex_trans(a.drop_first(), b.drop_first(), c.drop_first());
    }
}

/// Sort posts by date, newest first: the result is ordered and holds
/// exactly the given posts.
pub fn sort_posts_by_date(posts: Vec<Post>) -> (r: Vec<Post>)
    ensures
        sorted_by_date_desc(r@),
        r@.to_multiset() == posts@.to_multiset(),
{
    broadcast use vstd::seq_lib::to_multiset_build, vstd::seq_lib::to_multiset_remove,
        vstd::seq_lib::to_multiset_contains, vstd::multiset::group_multiset_axioms;

    let ghost orig = posts@;
    let mut rest = posts;
    let mut out: Vec<Post> = Vec::new();
    proof {
        assert(out@.to_multiset().add(rest@.to_multiset()) =~= orig.to_multiset());
    }
    while rest.len() > 0
        invariant
            out@.to_multiset().add(rest@.to_multiset()) == orig.to_multiset(),
            sorted_by_date_desc(out@),
            forall|a: int, b: int| 0 <= a < out@.len() && 0 <= b < rest@.len() ==>
                lex_le(#[trigger] rest@[b].metadata.date@, #[trigger] out@[a].metadata.date@),
        decreases rest@.len(),
    {
        let mut m: usize = 0;
        let mut k: usize = 1;
        proof {
            lemma_lex_refl(rest@[0].metadata.date@);
        }
        while k < rest.len()
            invariant
                rest@.len() > 0,
                0 <= m < k,
                k <= rest@.len(),
                forall|t: int| 0 <= t < k ==>
                    lex_le(#[trigger] rest@[t].metadata.date@, rest@[m as int].metadata.date@),
            decreases rest@.len() - k,
        {
            if lex_le_str(rest[m].metadata.date.as_str(), rest[k].metadata.date.as_str()) {
                proof {
                    let ghost old_m = m as int;
                    assert forall|t: int| 0 <= t < k + 1 implies
                        lex_le(#[trigger] rest@[t].metadata.date@, rest@[k as int].metadata.date@) by {
                        if t < k {
                            lemma_lex_trans(
                                rest@[t].metadata.date@,
                                rest@[old_m].metadata.date@,
                                rest@[k as int].metadata.date@,
                            );
                        } else {
                            lemma_lex_refl(rest@[k as int].metadata.date@);
                        }
                    }
                }
                m = k;
            } else {
                proof {
                    lemma_lex_total(rest@[m as int].metadata.date@, rest@[k as int].metadata.date@);
                }
            }
            k += 1;
        }
        let ghost out0 = out@;
        let ghost rest0 = rest@;
        let p = rest.remove(m);
        let ghost pe = p;
        out.push(p);
        proof {
            assert(out@ =~= out0.push(pe));
            // the removed element is the maximum of what remained
            assert forall|b: int| 0 <= b < rest@.len() implies
                lex_le(#[trigger] rest@[b].metadata.date@, pe.metadata.date@) by {
                if b < m {
                    assert(rest@[b] == rest0[b]);
                } else {
                    assert(rest@[b] == rest0[b + 1]);
                }
            }
            // the new element sits below everything already placed
            assert forall|a: int, j: int| 0 <= a < j < out@.len() implies
                lex_le(#[trigger] out@[j].metadata.date@, #[trigger] out@[a].metadata.date@) by {
                if j < out0.len() {
                    assert(sorted_by_date_desc(out0));
                } else {
                    assert(out@[j] == pe);
                    assert(lex_le(rest0[m as int].metadata.date@, out0[a].metadata.date@));
                }
            }
            assert forall|a: int, b: int| 0 <= a < out@.len() && 0 <= b < rest@.len() implies
                lex_le(#[trigger] rest@[b].metadata.date@, #[trigger] out@[a].metadata.date@) by {
                let ghost rb = if b < m { rest0[b] } else { rest0[b + 1] };
                assert(rest@[b] == rb);
                if a < out0.len() {
                    assert(lex_le(rb.metadata.date@, out0[a].metadata.date@));
                } else {
                    assert(out@[a] == pe);
                }
            }
            // multiset bookkeeping
            assert(rest0.contains(pe)) by {
                assert(rest0[m as int] == pe);
            }
            vstd::seq_lib::to_multiset_build(out0, pe);
            vstd::seq_lib::to_multiset_remove(rest0, m as int);
            vstd::seq_lib::to_multiset_contains(rest0, pe);
            assert(out@.to_multiset() == out0.to_multiset().insert(pe));
            assert(rest@.to_multiset() == rest0.to_multiset().remove(pe));
            assert(out@.to_multiset().add(rest@.to_multiset()) =~= orig.to_multiset());
        }
    }
    out
}

/// The variable mapping of a post page: its date and title.
pub open spec fn spec_post_vars(m: Metadata) -> Map<Seq<char>, Seq<char>> {
    Map::empty().insert("date"@, m.date@).insert("title"@, m.title@)
}

/// Build the per-post variable mapping.
pub fn post_vars(m: &Metadata) -> (r: VarMap)
    ensures
        r.wf(),
        r@ == spec_post_vars(*m),
{
    proof {
        reveal_strlit("date");
        reveal_strlit("title");
    }
    let mut vm = VarMap::new();
    proof {
        assert("date"@.len() == 4 && "title"@.len() == 5);
    }
    vm.insert(String::from_str("date"), m.date.clone());
    vm.insert(String::from_str("title"), m.title.clone());
    vm
}

/// The variable mapping of one index entry: url, date, title and excerpt.
pub open spec fn spec_item_vars(p: Post) -> Map<Seq<char>, Seq<char>> {
    Map::empty()
        .insert("url"@, p.url@)
        .insert("date"@, p.metadata.date@)
        .insert("title"@, p.metadata.title@)
        .insert("excerpt"@, p.excerpt@)
}

/// Build the variable mapping for one index entry.
pub fn item_vars(p: &Post) -> (r: VarMap)
    ensures
        r.wf(),
        r@ == spec_item_vars(*p),
{
    proof {
        reveal_strlit("url");
        reveal_strlit("date");
        reveal_strlit("title");
        reveal_strlit("excerpt");
    }
    let mut vm = VarMap::new();
    proof {
        assert("url"@.len() == 3 && "date"@.len() == 4 && "title"@.len() == 5
            && "excerpt"@.len() == 7);
    }
    vm.insert(String::from_str("url"), p.url.clone());
    vm.insert(String::from_str("date"), p.metadata.date.clone());
    vm.insert(String::from_str("title"), p.metadata.title.clone());
    vm.insert(String::from_str("excerpt"), p.excerpt.clone());
    vm
}

/// A post's site path: the posts directory plus the directory name with its
/// leading date prefix stripped.
pub fn post_url(dirname: &str) -> (r: String)
    requires
        dirname@.len() >= 11,
    ensures
        r@ == "posts/"@ + dirname@.skip(11),
{
    let n = dirname.unicode_len();
    let tail = dirname.substring_char(11, n);
    let mut s = String::from_str("posts/");
    s.append(tail);
    proof {
        assert(dirname@.subrange(11, dirname@.len() as int) =~= dirname@.skip(11));
    }
    s
}

/// The concatenation of page fragments, in order.
pub open spec fn spec_concat(parts: Seq<Seq<char>>) -> Seq<char>
    decreases parts.len(),
{
    if parts.len() == 0 {
        Seq::empty()
    } else {
        parts.first() + spec_concat(parts.drop_first())
    }
}

/// Concatenate pre-rendered page fragments (header, body pieces, footer)
/// into one page. Fragments are never re-substituted after combination.
pub fn concat_parts(parts: &Vec<String>) -> (r: String)
    ensures
        r@ == spec_concat(crate::render::sv(parts@)),
{
    let ghost whole = crate::render::sv(parts@);
    let n = parts.len();
    let mut out = String::new();
    let mut i: usize = 0;
    proof {
        assert(whole.skip(0) =~= whole);
        assert(Seq::<char>::empty() + spec_concat(whole) =~= spec_concat(whole));
    }
    while i < n
        invariant
            n == parts@.len(),
            whole == crate::render::sv(parts@),
            0 <= i <= n,
            spec_concat(whole) == out@ + spec_concat(whole.skip(i as int)),
        decreases n - i,
    {
        let ghost out0 = out@;
        let ghost rest = whole.skip(i as int);
        out.append(parts[i].as_str());
        proof {
            assert(rest.first() == parts@[i as int]@);
            assert(rest.drop_first() =~= whole.skip(i + 1));
            assert(spec_concat(rest) == rest.first() + spec_concat(rest.drop_first()));
            assert(out0 + (rest.first() + spec_concat(rest.drop_first()))
                =~= out@ + spec_concat(whole.skip(i + 1)));
        }
        i += 1;
    }
    proof {
        assert(whole.skip(n as int) =~= Seq::<Seq<char>>::empty());
        assert(out@ + spec_concat(Seq::<Seq<char>>::empty()) =~= out@);
    }
    out
}

/// The index entries: the item template substituted with each post's
/// variables, in the posts' order.
pub open spec fn spec_index_items(item: Seq<char>, posts: Seq<Post>) -> Seq<char>
    decreases posts.len(),
{
    if posts.len() == 0 {
        Seq::empty()
    } else {
        spec_subst(item, spec_item_vars(posts.first()))
            + spec_index_items(item, posts.drop_first())
    }
}

/// The whole index page: header, list begin, the entries, list end and
/// footer, with the outer variables substituted over the assembled page.
pub open spec fn spec_index(
    header: Seq<char>,
    list_begin: Seq<char>,
    item: Seq<char>,
    list_end: Seq<char>,
    footer: Seq<char>,
    posts: Seq<Post>,
    outer: Map<Seq<char>, Seq<char>>,
) -> Seq<char> {
    spec_subst(
        header + list_begin + spec_index_items(item, posts) + list_end + footer,
        outer,
    )
}

proof fn lemma_index_items_snoc(item: Seq<char>, posts: Seq<Post>, p: Post)
    ensures
        spec_index_items(item, posts.push(p))
            == spec_index_items(item, posts) + spec_subst(item, spec_item_vars(p)),
    decreases posts.len(),
{
    if posts.len() == 0 {
        assert(posts.push(p).first() == p);
        assert(posts.push(p).drop_first() =~= Seq::<Post>::empty());
        assert(spec_index_items(item, Seq::<Post>::empty()) == Seq::<char>::empty());
        assert(spec_index_items(item, posts.push(p))
            =~= spec_index_items(item, posts) + spec_subst(item, spec_item_vars(p)));
    } else {
        assert(posts.push(p).first() == posts.first());
        assert(posts.push(p).drop_first() =~= posts.drop_first().push(p));
        lemma_index_items_snoc(item, posts.drop_first(), p);
        let head = spec_subst(item, spec_item_vars(posts.first()));
        let mid = spec_index_items(item, posts.drop_first());
        let tail = spec_subst(item, spec_item_vars(p));
        assert(head + (mid + tail) =~= (head + mid) + tail);
    }
}

/// Assemble the index page from its templates and the ordered posts.
pub fn build_index(
    header: &str,
    list_begin: &str,
    item_template: &str,
    list_end: &str,
    footer: &str,
    posts: &Vec<Post>,
    outer: &VarMap,
) -> (r: String)
    requires
        outer.wf(),
    ensures
        r@ == spec_index(
            header@, list_begin@, item_template@, list_end@, footer@, posts@, outer@,
        ),
{
    let mut page = String::from_str(header);
    page.append(list_begin);
    let n = posts.len();
    let mut i: usize = 0;
    proof {
        assert(posts@.take(0) =~= Seq::<Post>::empty());
        assert(spec_index_items(item_template@, Seq::<Post>::empty()) == Seq::<char>::empty());
        assert(page@ =~= header@ + list_begin@
            + spec_index_items(item_template@, posts@.take(0)));
    }
    while i < n
        invariant
            n == posts@.len(),
            0 <= i <= n,
            outer.wf(),
            page@ == header@ + list_begin@
                + spec_index_items(item_template@, posts@.take(i as int)),
        decreases n - i,
    {
        let ghost page0 = page@;
        let vm = item_vars(&posts[i]);
        let entry = substitute(item_template, &vm);
        page.append(entry.as_str());
        proof {
            assert(posts@.take(i + 1) =~= posts@.take(i as int).push(posts@[i as int]));
            lemma_index_items_snoc(item_template@, posts@.take(i as int), posts@[i as int]);
            assert(page@ =~= header@ + list_begin@
                + spec_index_items(item_template@, posts@.take(i + 1)));
        }
        i += 1;
    }
    page.append(list_end);
    page.append(footer);
    proof {
        assert(posts@.take(n as int) =~= posts@);
        assert(page@ =~= header@ + list_begin@
            + spec_index_items(item_template@, posts@) + list_end@ + footer@);
    }
    substitute(page.as_str(), outer)
}

/// A draft never appears among the published posts.
pub proof fn lemma_draft_excluded(posts: Seq<Post>, p: Post)
    requires
        p.metadata.draft,
    ensures
        !published(posts).contains(p),
{
    if published(posts).contains(p) {
        let i = choose|i: int| 0 <= i < published(posts).len() && published(posts)[i] == p;
        posts.lemma_filter_pred(|q: Post| !q.metadata.draft, i);
    }
}

} // verus!

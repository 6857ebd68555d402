//! The computational core of the literature search: turning raw article
//! records, as a search backend reports them, into reference records.  The
//! network client that fetches the raw records lives outside; this module
//! is plain data in, plain data out.

use vstd::prelude::*;

use crate::strmap::StringMap;

verus! {

/// A decimal digit.
pub open spec fn is_digit(c: char) -> bool {
    '0' <= c && c <= '9'
}

/// The value of a decimal digit.
pub open spec fn digit_val(c: char) -> nat {
    ((c as int) - ('0' as int)) as nat
}

/// Fold decimal digits onto an accumulator; any non-digit, or a final
/// value beyond the 32-bit range, yields nothing.
pub open spec fn parse_digits(s: Seq<char>, acc: nat) -> Option<u32>
    decreases s.len(),
{
    if s.len() == 0 {
        if acc <= u32::MAX {
            Some(acc as u32)
        } else {
            None
        }
    } else if !is_digit(s[0]) {
        None
    } else {
        parse_digits(s.drop_first(), acc * 10 + digit_val(s[0]))
    }
}

/// What parsing a decimal number yields: the value of a non-empty string
/// of digits that fits 32 bits, nothing otherwise.
pub open spec fn parse_u32_m(s: Seq<char>) -> Option<u32> {
    if s.len() == 0 {
        None
    } else {
        parse_digits(s, 0)
    }
}

/// An accumulator already out of range can never recover.
proof fn lemma_parse_digits_overflow(s: Seq<char>, acc: nat)
    requires
        acc > u32::MAX,
    ensures
        parse_digits(s, acc) is None,
    decreases s.len(),
{
    if s.len() > 0 && is_digit(s[0]) {
        lemma_parse_digits_overflow(s.drop_first(), acc * 10 + digit_val(s[0]));
    }
}

/// Whitespace, for token splitting.
pub open spec fn is_ws(c: char) -> bool {
    c == ' ' || c == '\t' || c == '\n' || c == '\r' || c == '\u{000B}' || c == '\u{000C}'
}

/// The text with its leading whitespace removed.
pub open spec fn skip_ws(s: Seq<char>) -> Seq<char>
    decreases s.len(),
{
    if s.len() > 0 && is_ws(s[0]) {
        skip_ws(s.drop_first())
    } else {
        s
    }
}

/// The longest whitespace-free prefix.
pub open spec fn take_token(s: Seq<char>) -> Seq<char>
    decreases s.len(),
{
    if s.len() > 0 && !is_ws(s[0]) {
        seq![s[0]] + take_token(s.drop_first())
    } else {
        Seq::empty()
    }
}

/// The first whitespace-separated token of a text.
pub open spec fn first_token(s: Seq<char>) -> Seq<char> {
    take_token(skip_ws(s))
}

/// Parse a decimal number.
pub fn parse_u32(s: &str) -> (r: Option<u32>)
    ensures
        r == parse_u32_m(s@),
{
    let cs = crate::text::str_to_chars(s);
    let n = cs.len();
    if n == 0 {
        return None;
    }
    let mut acc: u64 = 0;
    let mut i: usize = 0;
    proof {
        assert(s@.subrange(0, n as int) =~= s@);
    }
    while i < n
        invariant
            i <= n,
            n == cs@.len(),
            n > 0,
            cs@ == s@,
            acc <= u32::MAX,
            parse_digits(s@, 0) == parse_digits(s@.subrange(i as int, n as int), acc as nat),
        decreases n - i,
    {
        let c = cs[i];
        proof {
            let rest = s@.subrange(i as int, n as int);
            assert(rest[0] == s@[i as int]);
            assert(rest.drop_first() =~= s@.subrange(i + 1, n as int));
        }
        if !('0' <= c && c <= '9') {
            return None;
        }
        let d: u64 = (c as u32 as u64) - ('0' as u32 as u64);
        proof {
            assert(d == digit_val(s@[i as int]));
        }
        acc = acc * 10 + d;
        if acc > 0xFFFF_FFFFu64 {
            proof {
                lemma_parse_digits_overflow(s@.subrange(i + 1, n as int), acc as nat);
            }
            return None;
        }
        i = i + 1;
    }
    proof {
        assert(s@.subrange(n as int, n as int) =~= Seq::<char>::empty());
    }
    Some(acc as u32)
}

/// The first whitespace-separated token of a text.
pub fn first_token_exec(s: &str) -> (r: String)
    ensures
        r@ == first_token(s@),
{
    let cs = crate::text::str_to_chars(s);
    let n = cs.len();
    let mut i: usize = 0;
    proof {
        assert(s@.subrange(0, n as int) =~= s@);
    }
    while i < n && (cs[i] == ' ' || cs[i] == '\t' || cs[i] == '\n' || cs[i] == '\r' || cs[i]
        == '\u{000B}' || cs[i] == '\u{000C}')
        invariant
            i <= n,
            n == cs@.len(),
            cs@ == s@,
            skip_ws(s@) == skip_ws(s@.subrange(i as int, n as int)),
        decreases n - i,
    {
        proof {
            let rest = s@.subrange(i as int, n as int);
            assert(rest[0] == s@[i as int]);
            assert(rest.drop_first() =~= s@.subrange(i + 1, n as int));
        }
        i = i + 1;
    }
    proof {
        let rest = s@.subrange(i as int, n as int);
        if i < n {
            assert(rest[0] == s@[i as int]);
        }
        assert(skip_ws(rest) == rest);
    }
    let ghost start = i as int;
    let mut out: Vec<char> = Vec::new();
    while i < n && !(cs[i] == ' ' || cs[i] == '\t' || cs[i] == '\n' || cs[i] == '\r' || cs[i]
        == '\u{000B}' || cs[i] == '\u{000C}')
        invariant
            0 <= start <= i <= n,
            n == cs@.len(),
            cs@ == s@,
            skip_ws(s@) == s@.subrange(start, n as int),
            out@ + take_token(s@.subrange(i as int, n as int)) == take_token(
                s@.subrange(start, n as int),
            ),
            forall|w: int| start <= w < i ==> !is_ws(s@[w]),
            out@ == s@.subrange(start, i as int),
        decreases n - i,
    {
        proof {
            let rest = s@.subrange(i as int, n as int);
            assert(rest[0] == s@[i as int]);
            assert(rest.drop_first() =~= s@.subrange(i + 1, n as int));
            assert(take_token(rest) == seq![s@[i as int]] + take_token(
                s@.subrange(i + 1, n as int),
            ));
        }
        let ghost prev = out@;
        out.push(cs[i]);
        proof {
            assert(prev == s@.subrange(start, i as int));
            assert(out@ == prev.push(cs@[i as int]));
            assert(cs@[i as int] == s@[i as int]);
            assert(out@.len() == i + 1 - start);
            assert forall|w: int| 0 <= w < out@.len() implies out@[w] == s@.subrange(
                start,
                i + 1,
            )[w] by {
                if w < i - start {
                    assert(out@[w] == prev[w]);
                    assert(prev[w] == s@[start + w]);
                } else {
                    assert(out@[w] == s@[i as int]);
                }
            }
            assert(out@ =~= s@.subrange(start, i + 1));
            assert(out@ == prev.push(s@[i as int]));
            let tkn = take_token(s@.subrange(i + 1, n as int));
            assert(prev.push(s@[i as int]) =~= prev + seq![s@[i as int]]);
            assert((prev + seq![s@[i as int]]) + tkn =~= prev + (seq![s@[i as int]] + tkn));
            assert(prev.push(s@[i as int]) + tkn == prev + (seq![s@[i as int]] + tkn));
            assert(out@ + take_token(s@.subrange(i + 1, n as int)) == take_token(
                s@.subrange(start, n as int),
            ));
        }
        i = i + 1;
    }
    proof {
        let rest = s@.subrange(i as int, n as int);
        if i < n {
            assert(rest[0] == s@[i as int]);
        }
        assert(take_token(rest) =~= Seq::<char>::empty());
        assert(out@ + Seq::<char>::empty() =~= out@);
    }
    crate::text::chars_to_string(out)
}

/// One author of an article, as the search backend reports it.
#[derive(Debug)]
pub struct Author {
    pub name: String,
    pub authtype: String,
    pub clusterid: String,
}

/// One identifier of an article, as the search backend reports it.
#[derive(Debug)]
pub struct ArticleId {
    pub idtype: String,
    pub idtypen: u32,
    pub value: String,
}

/// One article record, as the search backend reports it.
#[derive(Debug)]
pub struct Article {
    pub uid: String,
    pub pubdate: String,
    pub epubdate: String,
    pub source: String,
    pub authors: Vec<Author>,
    pub lastauthor: String,
    pub title: String,
    pub sort_pubdate: String,
    pub volume: String,
    pub issue: String,
    pub pages: String,
    pub lang: Vec<String>,
    pub issn: String,
    pub essn: String,
    pub pubtype: Vec<String>,
    pub article_ids: Vec<ArticleId>,
}

/// A bibliographic reference record.
#[derive(Debug)]
pub struct Reference {
    pub authors: Vec<String>,
    pub year: Option<u32>,
    pub title: String,
    pub container: Option<String>,
    pub volume: Option<u32>,
    pub issue: Option<u32>,
    pub pages: Option<String>,
    pub publication_date: Option<String>,
    pub doi: Option<String>,
    pub other_contributors: Option<String>,
    pub version: Option<String>,
    pub number: Option<String>,
    pub publisher: Option<String>,
    pub location: Option<String>,
    pub url: Option<String>,
    pub accessed_date: Option<String>,
    pub additional_info: StringMap,
}

/// A search request.
#[derive(Debug)]
pub struct SearchQuery {
    pub q: String,
}

/// A search response: the references found.
#[derive(Debug)]
pub struct SearchResponse {
    pub references: Vec<Reference>,
}

/// The value of the first article identifier of the `doi` kind, if any.
pub open spec fn first_doi(ids: Seq<(Seq<char>, Seq<char>)>) -> Option<Seq<char>>
    decreases ids.len(),
{
    if ids.len() == 0 {
        None
    } else if ids[0].0 == "doi"@ {
        Some(ids[0].1)
    } else {
        first_doi(ids.drop_first())
    }
}

/// Does a reference hold exactly the conversion of an article: authors in
/// their order, the year as the first token of the publication date read
/// as a number, volume and issue read as numbers, the digital object
/// identifier as the first article identifier of that kind, and every
/// other part either copied or absent?
pub open spec fn converts(a: Article, r: Reference) -> bool {
    &&& r.authors@.map_values(|s: String| s@) == a.authors@.map_values(|au: Author| au.name@)
    &&& r.year == parse_u32_m(first_token(a.pubdate@))
    &&& r.title@ == a.title@
    &&& r.container matches Some(c) && c@ == a.source@
    &&& r.volume == parse_u32_m(a.volume@)
    &&& r.issue == parse_u32_m(a.issue@)
    &&& r.pages matches Some(p) && p@ == a.pages@
    &&& r.publication_date matches Some(p) && p@ == a.pubdate@
    &&& match first_doi(a.article_ids@.map_values(|id: ArticleId| (id.idtype@, id.value@))) {
        Some(v) => r.doi matches Some(x) && x@ == v,
        None => r.doi is None,
    }
    &&& r.other_contributors is None
    &&& r.version is None
    &&& r.number is None
    &&& r.publisher is None
    &&& r.location is None
    &&& r.url is None
    &&& r.accessed_date is None
    &&& r.additional_info@ == Map::<Seq<char>, Seq<char>>::empty()
}

/// Turn one raw article record into a reference: authors keep their order,
/// the year is the first token of the publication date read as a number,
/// volume and issue are read as numbers, and the digital object identifier
/// is the first article identifier of that kind.
pub fn article_to_reference(a: &Article) -> (r: Reference)
    ensures
        converts(*a, r),
{
    let mut authors: Vec<String> = Vec::new();
    let n = a.authors.len();
    let mut i: usize = 0;
    while i < n
        invariant
            i <= n,
            n == a.authors@.len(),
            authors@.len() == i,
            forall|w: int| 0 <= w < i ==> (#[trigger] authors@[w])@ == a.authors@[w].name@,
        decreases n - i,
    {
        authors.push(a.authors[i].name.clone());
        i = i + 1;
    }
    proof {
        assert(authors@.map_values(|s: String| s@) =~= a.authors@.map_values(
            |au: Author| au.name@,
        ));
    }
    let ghost idv = a.article_ids@.map_values(|id: ArticleId| (id.idtype@, id.value@));
    let m = a.article_ids.len();
    let mut j: usize = 0;
    let mut doi: Option<String> = None;
    proof {
        assert(idv.subrange(0, m as int) =~= idv);
    }
    while j < m && doi.is_none()
        invariant
            j <= m,
            m == a.article_ids@.len(),
            idv == a.article_ids@.map_values(|id: ArticleId| (id.idtype@, id.value@)),
            doi is None ==> first_doi(idv) == first_doi(idv.subrange(j as int, m as int)),
            doi matches Some(v) ==> first_doi(idv) == Some(v@),
        decreases m - j + (if doi is Some {
            0int
        } else {
            1int
        }),
    {
        proof {
            let rest = idv.subrange(j as int, m as int);
            assert(rest[0] == idv[j as int]);
            assert(rest.drop_first() =~= idv.subrange(j + 1, m as int));
        }
        if crate::text::str_eq(a.article_ids[j].idtype.as_str(), "doi") {
            doi = Some(a.article_ids[j].value.clone());
        } else {
            j = j + 1;
        }
    }
    proof {
        if doi is None {
            assert(idv.subrange(m as int, m as int) =~= Seq::<(Seq<char>, Seq<char>)>::empty());
        }
    }
    let token = first_token_exec(a.pubdate.as_str());
    Reference {
        authors,
        year: parse_u32(token.as_str()),
        title: a.title.clone(),
        container: Some(a.source.clone()),
        volume: parse_u32(a.volume.as_str()),
        issue: parse_u32(a.issue.as_str()),
        pages: Some(a.pages.clone()),
        publication_date: Some(a.pubdate.clone()),
        doi,
        other_contributors: None,
        version: None,
        number: None,
        publisher: None,
        location: None,
        url: None,
        accessed_date: None,
        additional_info: StringMap::new(),
    }
}

/// Turn a batch of raw article records into a search response: one
/// converted reference per article, in order.
pub fn articles_to_response(articles: &Vec<Article>) -> (r: SearchResponse)
    ensures
        r.references@.len() == articles@.len(),
        forall|w: int|
            0 <= w < articles@.len() ==> converts(articles@[w], #[trigger] r.references@[w]),
{
    let n = articles.len();
    let mut refs: Vec<Reference> = Vec::new();
    let mut i: usize = 0;
    while i < n
        invariant
            i <= n,
            n == articles@.len(),
            refs@.len() == i,
            forall|w: int| 0 <= w < i ==> converts(articles@[w], #[trigger] refs@[w]),
        decreases n - i,
    {
        let r = article_to_reference(&articles[i]);
        refs.push(r);
        i = i + 1;
    }
    SearchResponse { references: refs }
}

} // verus!

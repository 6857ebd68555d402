//! Reference identifiers: a tagged identifier that records which registry a
//! bibliographic reference came from, so that the reference can be
//! regenerated from its source in extremis.

use vstd::prelude::*;

use crate::text::{find_char, str_eq, str_to_chars, chars_to_string};

verus! {

/// Relies on `uuid::Uuid::parse_str` and `Uuid::as_u128`: the value parsed
/// from a textual identifier, or the nil value when the text does not
/// parse; a function of the characters alone.
pub uninterp spec fn parsed_uuid_or_nil(s: Seq<char>) -> u128;

#[verifier::external_body]
fn parse_uuid_or_nil(s: &str) -> (r: u128)
    ensures
        r == parsed_uuid_or_nil(s@),
{
    uuid::Uuid::parse_str(s).unwrap_or_default().as_u128()
}

/// A value a repository can hold for a reference.
pub trait ReferenceLike {
    /// The text form of the reference.
    fn as_text(&self) -> String;
}

impl ReferenceLike for String {
    fn as_text(&self) -> (r: String)
        ensures
            r@ == self@,
    {
        self.clone()
    }
}

/// The registries a reference identifier can come from.
#[derive(Debug)]
pub enum ReferenceUuid {
    Pubmed(String),
    Arxiv(String),
    Doi(String),
    Url(String),
    HtmlMd5(String),
    Uuid(u128),
    Isbn(String),
    Issn(String),
    Patent(String),
    Orcid(String),
    Handle(String),
    Pmc(String),
    DataCite(String),
    RorId(String),
    UnknownSource(String),
}

/// The mathematical form of a reference identifier.
pub enum ReferenceView {
    Pubmed(Seq<char>),
    Arxiv(Seq<char>),
    Doi(Seq<char>),
    Url(Seq<char>),
    HtmlMd5(Seq<char>),
    Uuid(u128),
    Isbn(Seq<char>),
    Issn(Seq<char>),
    Patent(Seq<char>),
    Orcid(Seq<char>),
    Handle(Seq<char>),
    Pmc(Seq<char>),
    DataCite(Seq<char>),
    RorId(Seq<char>),
    UnknownSource(Seq<char>),
}

impl View for ReferenceUuid {
    type V = ReferenceView;

    open spec fn view(&self) -> ReferenceView {
        match self {
            ReferenceUuid::Pubmed(s) => ReferenceView::Pubmed(s@),
            ReferenceUuid::Arxiv(s) => ReferenceView::Arxiv(s@),
            ReferenceUuid::Doi(s) => ReferenceView::Doi(s@),
            ReferenceUuid::Url(s) => ReferenceView::Url(s@),
            ReferenceUuid::HtmlMd5(s) => ReferenceView::HtmlMd5(s@),
            ReferenceUuid::Uuid(u) => ReferenceView::Uuid(*u),
            ReferenceUuid::Isbn(s) => ReferenceView::Isbn(s@),
            ReferenceUuid::Issn(s) => ReferenceView::Issn(s@),
            ReferenceUuid::Patent(s) => ReferenceView::Patent(s@),
            ReferenceUuid::Orcid(s) => ReferenceView::Orcid(s@),
            ReferenceUuid::Handle(s) => ReferenceView::Handle(s@),
            ReferenceUuid::Pmc(s) => ReferenceView::Pmc(s@),
            ReferenceUuid::DataCite(s) => ReferenceView::DataCite(s@),
            ReferenceUuid::RorId(s) => ReferenceView::RorId(s@),
            ReferenceUuid::UnknownSource(s) => ReferenceView::UnknownSource(s@),
        }
    }
}

/// The prefix that names a reference's registry.
pub open spec fn prefix_spec(v: ReferenceView) -> Seq<char> {
    match v {
        ReferenceView::Pubmed(_) => "pubmed:"@,
        ReferenceView::Arxiv(_) => "arxiv:"@,
        ReferenceView::Doi(_) => "doi:"@,
        ReferenceView::Url(_) => "url:"@,
        ReferenceView::HtmlMd5(_) => "md5:"@,
        ReferenceView::Uuid(_) => "uuid:"@,
        ReferenceView::Isbn(_) => "isbn:"@,
        ReferenceView::Issn(_) => "issn:"@,
        ReferenceView::Patent(_) => "patent:"@,
        ReferenceView::Orcid(_) => "orcid:"@,
        ReferenceView::Handle(_) => "hdl:"@,
        ReferenceView::Pmc(_) => "pmc:"@,
        ReferenceView::DataCite(_) => "datacite:"@,
        ReferenceView::RorId(_) => "ror:"@,
        ReferenceView::UnknownSource(_) => "unknown:"@,
    }
}

/// What parsing a textual identifier yields: the text up to the first
/// colon selects the registry and the rest is the value; a missing colon
/// or an unrecognised registry keeps the whole text as an unknown source,
/// and an identifier in the uuid registry parses its value, falling back
/// to the nil value.
pub open spec fn parse_reference_m(s: Seq<char>) -> ReferenceView {
    let i = find_char(s, ':') as int;
    if i >= s.len() {
        ReferenceView::UnknownSource(s)
    } else {
        let p = s.subrange(0, i);
        let v = s.subrange(i + 1, s.len() as int);
        if p == "pubmed"@ {
            ReferenceView::Pubmed(v)
        } else if p == "arxiv"@ {
            ReferenceView::Arxiv(v)
        } else if p == "doi"@ {
            ReferenceView::Doi(v)
        } else if p == "url"@ {
            ReferenceView::Url(v)
        } else if p == "md5"@ {
            ReferenceView::HtmlMd5(v)
        } else if p == "uuid"@ {
            ReferenceView::Uuid(parsed_uuid_or_nil(v))
        } else if p == "isbn"@ {
            ReferenceView::Isbn(v)
        } else if p == "issn"@ {
            ReferenceView::Issn(v)
        } else if p == "patent"@ {
            ReferenceView::Patent(v)
        } else if p == "orcid"@ {
            ReferenceView::Orcid(v)
        } else if p == "hdl"@ {
            ReferenceView::Handle(v)
        } else if p == "pmc"@ {
            ReferenceView::Pmc(v)
        } else if p == "datacite"@ {
            ReferenceView::DataCite(v)
        } else if p == "ror"@ {
            ReferenceView::RorId(v)
        } else {
            ReferenceView::UnknownSource(s)
        }
    }
}

impl ReferenceUuid {
    /// The prefix for this reference identifier; prefixes say where to
    /// look a reference up.
    pub fn prefix(&self) -> (r: &str)
        ensures
            r@ == prefix_spec(self@),
    {
        match self {
            ReferenceUuid::Pubmed(_) => "pubmed:",
            ReferenceUuid::Arxiv(_) => "arxiv:",
            ReferenceUuid::Doi(_) => "doi:",
            ReferenceUuid::Url(_) => "url:",
            ReferenceUuid::HtmlMd5(_) => "md5:",
            ReferenceUuid::Uuid(_) => "uuid:",
            ReferenceUuid::Isbn(_) => "isbn:",
            ReferenceUuid::Issn(_) => "issn:",
            ReferenceUuid::Patent(_) => "patent:",
            ReferenceUuid::Orcid(_) => "orcid:",
            ReferenceUuid::Handle(_) => "hdl:",
            ReferenceUuid::Pmc(_) => "pmc:",
            ReferenceUuid::DataCite(_) => "datacite:",
            ReferenceUuid::RorId(_) => "ror:",
            ReferenceUuid::UnknownSource(_) => "unknown:",
        }
    }

    /// Parse a textual identifier into its registry and value.
    pub fn from(s: &str) -> (r: ReferenceUuid)
        ensures
            r@ == parse_reference_m(s@),
    {
        let cs = str_to_chars(s);
        let n = cs.len();
        let mut i: usize = 0;
        proof {
            assert(cs@.subrange(0, n as int) =~= cs@);
        }
        while i < n && cs[i] != ':'
            invariant
                i <= n,
                n == cs@.len(),
                cs@ == s@,
                find_char(s@, ':') == i + find_char(s@.subrange(i as int, n as int), ':'),
            decreases n - i,
        {
            proof {
                let rest = s@.subrange(i as int, n as int);
                assert(rest[0] == s@[i as int]);
                assert(rest.drop_first() =~= s@.subrange(i + 1, n as int));
            }
            i = i + 1;
        }
        proof {
            let rest = s@.subrange(i as int, n as int);
            if i < n {
                assert(rest[0] == s@[i as int]);
            }
            assert(find_char(rest, ':') == 0);
            assert(find_char(s@, ':') == i as int);
        }
        if i >= n {
            return ReferenceUuid::UnknownSource(s.to_owned());
        }
        let mut pc: Vec<char> = Vec::new();
        let mut a: usize = 0;
        while a < i
            invariant
                a <= i <= n,
                n == cs@.len(),
                cs@ == s@,
                pc@ == s@.subrange(0, a as int),
            decreases i - a,
        {
            pc.push(cs[a]);
            proof {
                assert(pc@ =~= s@.subrange(0, a + 1));
            }
            a = a + 1;
        }
        let mut vc: Vec<char> = Vec::new();
        let mut b: usize = i + 1;
        while b < n
            invariant
                i + 1 <= b <= n,
                n == cs@.len(),
                cs@ == s@,
                vc@ == s@.subrange(i + 1, b as int),
            decreases n - b,
        {
            vc.push(cs[b]);
            proof {
                assert(vc@ =~= s@.subrange(i + 1, b as int + 1));
            }
            b = b + 1;
        }
        proof {
            assert(vc@ =~= s@.subrange(i + 1, n as int));
        }
        let p = chars_to_string(pc);
        let v = chars_to_string(vc);
        if str_eq(p.as_str(), "pubmed") {
            ReferenceUuid::Pubmed(v)
        } else if str_eq(p.as_str(), "arxiv") {
            ReferenceUuid::Arxiv(v)
        } else if str_eq(p.as_str(), "doi") {
            ReferenceUuid::Doi(v)
        } else if str_eq(p.as_str(), "url") {
            ReferenceUuid::Url(v)
        } else if str_eq(p.as_str(), "md5") {
            ReferenceUuid::HtmlMd5(v)
        } else if str_eq(p.as_str(), "uuid") {
            ReferenceUuid::Uuid(parse_uuid_or_nil(v.as_str()))
        } else if str_eq(p.as_str(), "isbn") {
            ReferenceUuid::Isbn(v)
        } else if str_eq(p.as_str(), "issn") {
            ReferenceUuid::Issn(v)
        } else if str_eq(p.as_str(), "patent") {
            ReferenceUuid::Patent(v)
        } else if str_eq(p.as_str(), "orcid") {
            ReferenceUuid::Orcid(v)
        } else if str_eq(p.as_str(), "hdl") {
            ReferenceUuid::Handle(v)
        } else if str_eq(p.as_str(), "pmc") {
            ReferenceUuid::Pmc(v)
        } else if str_eq(p.as_str(), "datacite") {
            ReferenceUuid::DataCite(v)
        } else if str_eq(p.as_str(), "ror") {
            ReferenceUuid::RorId(v)
        } else {
            ReferenceUuid::UnknownSource(s.to_owned())
        }
    }
}

} // verus!

use html_ops::reference::{ReferenceLike, ReferenceUuid};
use html_ops::repository::citation::ReferenceRepositoryLike;
use html_ops::repository::rich_text::RichTextRepositoryLike;
use html_ops::search::{article_to_reference, parse_u32, first_token_exec, Article, ArticleId, Author};
use html_ops::text::{sanitize_text, u64_to_string};

#[test]
fn test_reference_prefixes() {
    assert_eq!(ReferenceUuid::from("pubmed:12345").prefix(), "pubmed:");
    assert_eq!(ReferenceUuid::from("arxiv:2101.0001").prefix(), "arxiv:");
    assert_eq!(ReferenceUuid::from("doi:10.1/x").prefix(), "doi:");
    assert_eq!(ReferenceUuid::from("url:http://x").prefix(), "url:");
    assert_eq!(ReferenceUuid::from("md5:abc").prefix(), "md5:");
    assert_eq!(ReferenceUuid::from("isbn:1").prefix(), "isbn:");
    assert_eq!(ReferenceUuid::from("issn:1").prefix(), "issn:");
    assert_eq!(ReferenceUuid::from("patent:1").prefix(), "patent:");
    assert_eq!(ReferenceUuid::from("orcid:1").prefix(), "orcid:");
    assert_eq!(ReferenceUuid::from("hdl:1").prefix(), "hdl:");
    assert_eq!(ReferenceUuid::from("pmc:1").prefix(), "pmc:");
    assert_eq!(ReferenceUuid::from("datacite:1").prefix(), "datacite:");
    assert_eq!(ReferenceUuid::from("ror:1").prefix(), "ror:");
    assert_eq!(ReferenceUuid::from("mystery:1").prefix(), "unknown:");
    assert_eq!(ReferenceUuid::from("no-colon-here").prefix(), "unknown:");
}

#[test]
fn test_reference_values() {
    match ReferenceUuid::from("pubmed:12345") {
        ReferenceUuid::Pubmed(v) => assert_eq!(v, "12345"),
        _ => panic!("expected a pubmed reference"),
    }
    match ReferenceUuid::from("doi:10.1/with:colon") {
        ReferenceUuid::Doi(v) => assert_eq!(v, "10.1/with:colon"),
        _ => panic!("expected a doi reference"),
    }
    match ReferenceUuid::from("mystery:1") {
        ReferenceUuid::UnknownSource(v) => assert_eq!(v, "mystery:1"),
        _ => panic!("expected an unknown source"),
    }
}

#[test]
fn test_reference_uuid_parse_and_fallback() {
    let raw = "67e55044-10b1-426f-9247-bb680e5fe0c8";
    let expected = uuid::Uuid::parse_str(raw).unwrap().as_u128();
    match ReferenceUuid::from(&format!("uuid:{}", raw)) {
        ReferenceUuid::Uuid(v) => assert_eq!(v, expected),
        _ => panic!("expected a uuid reference"),
    }
    match ReferenceUuid::from("uuid:not-a-uuid") {
        ReferenceUuid::Uuid(v) => assert_eq!(v, 0),
        _ => panic!("expected the nil fallback"),
    }
}

#[test]
fn test_reference_like_string() {
    let s = "some reference".to_string();
    assert_eq!(s.as_text(), "some reference");
}

#[test]
fn test_citation_repository() {
    let mut repo = html_ops::repository::citation::HashMapRepository::new();
    assert!(!repo.upsert(7, "first".to_string()));
    assert!(repo.upsert(7, "second".to_string()));
    assert_eq!(repo.get(7).unwrap(), "second");
    assert!(repo.get(8).is_none());
    let listed = repo.list();
    assert_eq!(listed.len(), 1);
    assert_eq!(listed[0], (7, "second".to_string()));
    assert!(repo.delete(7));
    assert!(!repo.delete(7));
    assert!(repo.get(7).is_none());
}

#[test]
fn test_rich_text_repository() {
    let mut repo = html_ops::repository::rich_text::HashMapRepository::new();
    assert!(repo.insert(1, "one".to_string()));
    assert!(!repo.insert(1, "again".to_string()));
    assert_eq!(repo.get(1).unwrap(), "one");
    assert!(repo.update(1, "uno".to_string()));
    assert!(!repo.update(2, "dos".to_string()));
    assert_eq!(repo.get(1).unwrap(), "uno");
    assert_eq!(repo.list().len(), 1);
    assert!(repo.delete(1));
    assert!(repo.get(1).is_none());
}

#[test]
fn test_parse_u32_cases() {
    assert_eq!(parse_u32("0"), Some(0));
    assert_eq!(parse_u32("2021"), Some(2021));
    assert_eq!(parse_u32("4294967295"), Some(4294967295));
    assert_eq!(parse_u32("4294967296"), None);
    assert_eq!(parse_u32(""), None);
    assert_eq!(parse_u32("12a"), None);
    assert_eq!(parse_u32("99999999999999999999"), None);
}

#[test]
fn test_first_token() {
    assert_eq!(first_token_exec("2021 Mar 5"), "2021");
    assert_eq!(first_token_exec("   lead"), "lead");
    assert_eq!(first_token_exec(""), "");
    assert_eq!(first_token_exec("   "), "");
}

#[test]
fn test_u64_rendering() {
    assert_eq!(u64_to_string(0), "0");
    assert_eq!(u64_to_string(42), "42");
    assert_eq!(u64_to_string(1234567890), "1234567890");
}

#[test]
fn test_article_to_reference() {
    let article = Article {
        uid: "100".to_string(),
        pubdate: "2021 Mar 5".to_string(),
        epubdate: String::new(),
        source: "Journal of Things".to_string(),
        authors: vec![
            Author {
                name: "Ada".to_string(),
                authtype: "Author".to_string(),
                clusterid: String::new(),
            },
            Author {
                name: "Grace".to_string(),
                authtype: "Author".to_string(),
                clusterid: String::new(),
            },
        ],
        lastauthor: "Grace".to_string(),
        title: "On Things".to_string(),
        sort_pubdate: String::new(),
        volume: "12".to_string(),
        issue: "x3".to_string(),
        pages: "1-10".to_string(),
        lang: vec!["eng".to_string()],
        issn: String::new(),
        essn: String::new(),
        pubtype: Vec::new(),
        article_ids: vec![
            ArticleId {
                idtype: "pubmed".to_string(),
                idtypen: 1,
                value: "100".to_string(),
            },
            ArticleId {
                idtype: "doi".to_string(),
                idtypen: 2,
                value: "10.1000/x".to_string(),
            },
        ],
    };
    let r = article_to_reference(&article);
    assert_eq!(r.authors, vec!["Ada".to_string(), "Grace".to_string()]);
    assert_eq!(r.year, Some(2021));
    assert_eq!(r.title, "On Things");
    assert_eq!(r.container.unwrap(), "Journal of Things");
    assert_eq!(r.volume, Some(12));
    assert_eq!(r.issue, None);
    assert_eq!(r.pages.unwrap(), "1-10");
    assert_eq!(r.publication_date.unwrap(), "2021 Mar 5");
    assert_eq!(r.doi.unwrap(), "10.1000/x");
    assert!(r.url.is_none());
    assert_eq!(r.additional_info.len(), 0);
}

#[test]
fn test_sanitize_text_edges() {
    assert_eq!(sanitize_text(""), "");
    assert_eq!(sanitize_text("\n\n\n"), "");
    assert_eq!(sanitize_text("a\u{00A0}b"), "a b");
    assert_eq!(sanitize_text("one\r\ntwo"), "one two");
}

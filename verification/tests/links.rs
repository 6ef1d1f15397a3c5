use rustkit_engine::dom::StrMap;
use rustkit_engine::links::{discover_images, external_stylesheets, resolve_url, ImageElement};

fn attrs(pairs: &[(&str, &str)]) -> StrMap {
    let mut a = StrMap::new();
    for (k, v) in pairs {
        a.insert(k, v);
    }
    a
}

#[test]
fn relative_urls_resolve_against_the_document() {
    assert_eq!(
        resolve_url(Some("https://example.com/a/b"), "c.png").as_deref(),
        Some("https://example.com/a/c.png")
    );
    assert_eq!(
        resolve_url(Some("https://example.com/page"), "/search?q=x").as_deref(),
        Some("https://example.com/search?q=x")
    );
    assert_eq!(
        resolve_url(Some("https://example.com/a/b"), "https://cdn.example.net/x.png").as_deref(),
        Some("https://cdn.example.net/x.png")
    );
}

#[test]
fn without_a_document_url_only_absolute_urls_resolve() {
    assert_eq!(resolve_url(None, "https://example.com").as_deref(), Some("https://example.com/"));
    assert_eq!(resolve_url(None, "portal/img/logo.png"), None);
    assert_eq!(resolve_url(Some("not a url"), "x.png"), None);
}

#[test]
fn stylesheet_links_in_document_order() {
    let links = vec![
        attrs(&[("rel", "Stylesheet"), ("href", "a.css")]),
        attrs(&[("rel", "icon"), ("href", "favicon.ico")]),
        attrs(&[("rel", "stylesheet")]),
        attrs(&[("href", "no-rel.css")]),
        attrs(&[("rel", "stylesheet"), ("href", "/b.css")]),
    ];
    let urls = external_stylesheets(&links, Some("https://example.com/dir/page.html"));
    assert_eq!(
        urls,
        vec!["https://example.com/dir/a.css".to_string(), "https://example.com/b.css".to_string()]
    );
    assert!(external_stylesheets(&links, None).is_empty());
}

#[test]
fn image_urls_prefer_the_srcset_choice() {
    let images = vec![
        ImageElement { attributes: attrs(&[("src", "small.png")]), srcset_choice: Some("big.png".into()) },
        ImageElement { attributes: attrs(&[("src", "/x.png")]), srcset_choice: None },
        ImageElement { attributes: attrs(&[("alt", "none")]), srcset_choice: None },
    ];
    let got = discover_images(&images, Some("https://example.com/a/b"));
    assert_eq!(
        got,
        vec![
            ("big.png".to_string(), "https://example.com/a/big.png".to_string()),
            ("/x.png".to_string(), "https://example.com/x.png".to_string()),
        ]
    );
}

#[test]
fn an_absolute_src_is_left_alone() {
    let base = Some("https://example.com/a/b");
    assert_eq!(
        resolve_url(base, "https://cdn.example.net/x.png").as_deref(),
        Some("https://cdn.example.net/x.png")
    );
    // Root-relative resolves against the origin, not the directory.
    assert_eq!(resolve_url(base, "/x.png").as_deref(), Some("https://example.com/x.png"));
}

#[test]
fn a_relative_image_src_reaches_the_display_list_absolute() {
    let images = vec![ImageElement {
        attributes: attrs(&[("src", "portal/wikipedia.org/assets/img/Wikipedia-logo-v2.png")]),
        srcset_choice: None,
    }];
    let urls = discover_images(&images, Some("https://www.wikipedia.org/"));
    assert!(!urls.is_empty());
    for (_, u) in &urls {
        assert!(u.starts_with("https://www.wikipedia.org/portal/"), "got {u:?}");
    }
    let sprite = resolve_url(Some("https://www.wikipedia.org/"), "portal/wikipedia.org/assets/img/sprite.svg");
    assert!(sprite.unwrap().starts_with("https://www.wikipedia.org/portal/"));
}

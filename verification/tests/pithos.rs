use neurolithe::pithos::pt_uri_to_url;

#[test]
fn test_pt_uri_to_url_maps_scheme() {
    assert_eq!(
        pt_uri_to_url("http://host:8080", "pt://archive/doc_1/text"),
        "http://host:8080/archive/doc_1/text"
    );
    // Trailing slash on base + a non-pt path are both normalized.
    assert_eq!(
        pt_uri_to_url("http://host:8080/", "/archive/doc_1/text"),
        "http://host:8080/archive/doc_1/text"
    );
}

#[test]
fn pt_url_without_leading_slash_gets_one() {
    assert_eq!(
        pt_uri_to_url("http://host:8080", "archive/doc_2/text"),
        "http://host:8080/archive/doc_2/text"
    );
}

#[test]
fn pt_url_strips_every_trailing_base_slash() {
    assert_eq!(
        pt_uri_to_url("http://host:8080///", "pt://a/b"),
        "http://host:8080/a/b"
    );
}

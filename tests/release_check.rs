use github_release_check::{
    generate_headers, get_last_page, last_page_from_link, latest_version, releases_url,
    status_error, tag_names, GitHubReleaseItem, LookupError, Paginator, DEFAULT_API_ROOT,
    PAGINATION_REQUEST_AMOUNT,
};
use reqwest::header::{HeaderMap, HeaderName, HeaderValue};

const LINK_TEN: &str = r#"<https://api.github.com/repositories/275449421/releases?per_page=1&page=2>; rel="next", <https://api.github.com/repositories/275449421/releases?per_page=1&page=10>; rel="last""#;

fn item(tag: &str) -> GitHubReleaseItem {
    GitHubReleaseItem {
        url: String::new(),
        assets_url: String::new(),
        upload_url: String::new(),
        html_url: String::new(),
        tag_name: tag.to_string(),
        name: String::new(),
        draft: false,
        prerelease: false,
        created_at: String::new(),
        published_at: String::new(),
        body: String::new(),
    }
}

fn headers_with_link(link: Option<&str>) -> HeaderMap {
    let mut map = HeaderMap::new();
    if let Some(l) = link {
        let _ = map.insert(HeaderName::from_static("link"), HeaderValue::from_str(l).unwrap());
    }
    map
}

/// Drives a paginator against an upstream that answers page `n` with `pages[n - 1]`
/// and the same `link` header each time; gives the pages requested and the records.
fn run_query(pages: &[Vec<GitHubReleaseItem>], link: Option<&str>) -> (Vec<usize>, Vec<GitHubReleaseItem>) {
    let headers = headers_with_link(link);
    let mut pager = Paginator::new();
    let mut requested = Vec::new();
    loop {
        let page = pager.page();
        requested.push(page);
        pager.on_response(200, &headers).unwrap();
        if !pager.on_records(pages[page - 1].clone()) {
            break;
        }
    }
    (requested, pager.into_records())
}

fn tags(records: &[GitHubReleaseItem]) -> Vec<String> {
    tag_names(&records.to_vec())
}

#[test]
fn test_get_last_page_none() {
    let map = HeaderMap::new();
    let last = get_last_page(&map).unwrap();
    assert!(last.is_none());
}

#[test]
fn test_get_last_page_some() {
    let mut map = HeaderMap::new();
    let _ = map.insert(HeaderName::from_static("link"), HeaderValue::from_static(LINK_TEN));
    let last = get_last_page(&map).unwrap();
    assert_eq!(last, Some(10));
}

#[test]
fn test_get_all_versions_none() {
    let (_, records) = run_query(&[vec![]], None);
    let versions = tag_names(&records);
    assert!(versions.is_empty());
}

#[test]
fn test_get_all_versions_valid() {
    let page = vec![item("v1.0.0"), item("v1.9.10"), item("v0.3.0")];
    let (_, records) = run_query(&[page], None);
    let versions = tag_names(&records);
    assert_eq!(versions.len(), 3);
    assert_eq!(versions, vec!["v1.0.0", "v1.9.10", "v0.3.0"]);
}

#[test]
fn test_get_latest_version_none() {
    let (_, records) = run_query(&[vec![]], None);
    let version_res = latest_version(&tag_names(&records));
    assert!(version_res.is_err());
    assert_eq!(version_res.err(), Some(LookupError::NoReleases));
}

#[test]
fn test_get_latest_version_bad_semvers() {
    let page = vec![item("uhhhh"), item("v3.0.0-alpha"), item("v1.9.10")];
    let (_, records) = run_query(&[page], None);
    let version = latest_version(&tag_names(&records)).unwrap();
    assert_eq!(version.as_str(), "3.0.0-alpha");
    assert_eq!(version.into_version(), semver::Version::parse("3.0.0-alpha").unwrap());
}

#[test]
fn latest_version_picks_greatest_release() {
    let version = latest_version(&tags(&[item("v1.0.0"), item("v1.9.10"), item("v0.3.0")])).unwrap();
    assert_eq!(version.as_str(), "1.9.10");
    assert_eq!(*version.version(), semver::Version::new(1, 9, 10));
}

#[test]
fn latest_version_orders_numerically_not_by_text() {
    let version = latest_version(&tags(&[item("1.10.0"), item("1.9.0"), item("1.2.0")])).unwrap();
    assert_eq!(version.as_str(), "1.10.0");
}

#[test]
fn latest_version_release_above_its_prerelease() {
    let version = latest_version(&tags(&[item("v2.0.0"), item("v2.0.0-rc.1")])).unwrap();
    assert_eq!(version.as_str(), "2.0.0");
}

#[test]
fn latest_version_strips_only_one_v() {
    let res = latest_version(&tags(&[item("vv1.0.0"), item("V1.0.0"), item("")]));
    assert_eq!(res.err(), Some(LookupError::NoReleases));
}

#[test]
fn last_page_ignores_per_page_key() {
    let link = b"<https://x/releases?per_page=1&page=10>; rel=\"last\"".to_vec();
    assert_eq!(last_page_from_link(&link), Some(10));
    let reversed = b"<https://x/releases?page=7&per_page=100>; rel=\"last\"".to_vec();
    assert_eq!(last_page_from_link(&reversed), Some(7));
}

#[test]
fn last_page_needs_last_relation() {
    let link = b"<https://x/releases?page=2>; rel=\"next\", <https://x/releases?page=1>; rel=\"first\"".to_vec();
    assert_eq!(last_page_from_link(&link), None);
    assert_eq!(last_page_from_link(&Vec::new()), None);
}

#[test]
fn last_page_key_must_be_exactly_page() {
    let link = b"<https://x/releases?subpage=4>; rel=\"last\"".to_vec();
    assert_eq!(last_page_from_link(&link), None);
    let later = b"<https://x/releases?subpage=4&page=6>; rel=\"last\"".to_vec();
    assert_eq!(last_page_from_link(&later), Some(6));
}

#[test]
fn last_page_too_large_is_none() {
    let link = b"<https://x/releases?page=99999999999999999999999>; rel=\"last\"".to_vec();
    assert_eq!(last_page_from_link(&link), None);
}

#[test]
fn last_page_header_not_text_fails() {
    let mut map = HeaderMap::new();
    let _ = map.insert(
        HeaderName::from_static("link"),
        HeaderValue::from_bytes(b"<https://x/?page=\xff3>; rel=\"last\"").unwrap(),
    );
    assert_eq!(get_last_page(&map), Err(LookupError::HeaderToString));
}

#[test]
fn pagination_requests_every_page_up_to_last() {
    let pages = vec![vec![item("a")], vec![item("b"), item("c")], vec![item("d")]];
    let link = "<https://x/releases?per_page=100&page=3>; rel=\"last\"";
    let (requested, records) = run_query(&pages, Some(link));
    assert_eq!(requested, vec![1, 2, 3]);
    assert_eq!(tags(&records), vec!["a", "b", "c", "d"]);
}

#[test]
fn pagination_single_page_without_header() {
    let pages = vec![vec![item("a"), item("b")], vec![item("c")]];
    let (requested, records) = run_query(&pages, None);
    assert_eq!(requested, vec![1]);
    assert_eq!(tags(&records), vec!["a", "b"]);
}

#[test]
fn pagination_last_page_one() {
    let pages = vec![vec![item("a")]];
    let (requested, records) = run_query(&pages, Some("<https://x/?page=1>; rel=\"last\""));
    assert_eq!(requested, vec![1]);
    assert_eq!(tags(&records), vec!["a"]);
}

#[test]
fn pagination_concatenates_many_pages_in_order() {
    let pages: Vec<Vec<GitHubReleaseItem>> =
        (1..=5).map(|n| vec![item(&format!("v{n}.0.0")), item(&format!("v{n}.1.0"))]).collect();
    let (requested, records) = run_query(&pages, Some("<https://x/?page=5>; rel=\"last\""));
    assert_eq!(requested, vec![1, 2, 3, 4, 5]);
    assert_eq!(
        tags(&records),
        vec![
            "v1.0.0", "v1.1.0", "v2.0.0", "v2.1.0", "v3.0.0", "v3.1.0", "v4.0.0", "v4.1.0",
            "v5.0.0", "v5.1.0"
        ]
    );
    assert_eq!(latest_version(&tags(&records)).unwrap().as_str(), "5.1.0");
}

#[test]
fn same_upstream_twice_gives_same_answer() {
    let pages = vec![vec![item("v0.1.0"), item("junk")], vec![item("v0.2.0")], vec![item("v0.1.5")]];
    let link = Some("<https://x/?page=3>; rel=\"last\"");
    let (_, first) = run_query(&pages, link);
    let (_, second) = run_query(&pages, link);
    assert_eq!(tags(&first), tags(&second));
    let a = latest_version(&tags(&first)).unwrap();
    let b = latest_version(&tags(&second)).unwrap();
    assert_eq!(a.as_str(), b.as_str());
    assert_eq!(a.as_str(), "0.2.0");
}

#[test]
fn error_statuses() {
    let headers = HeaderMap::new();
    let mut pager = Paginator::new();
    assert_eq!(pager.on_response(404, &headers), Err(LookupError::RepositoryNotFound));
    assert_eq!(pager.on_response(401, &headers), Err(LookupError::AuthenticationError(401)));
    assert_eq!(pager.on_response(403, &headers), Err(LookupError::AuthenticationError(403)));
    assert_eq!(pager.on_response(500, &headers), Err(LookupError::ErrorHttpResponse(500)));
    assert_eq!(pager.on_response(302, &headers), Err(LookupError::ErrorHttpResponse(302)));
    assert_eq!(pager.page(), 1);
    assert_eq!(status_error(200), None);
    assert_eq!(status_error(299), None);
    assert_eq!(status_error(199), Some(LookupError::ErrorHttpResponse(199)));
}

#[test]
fn headers_without_token() {
    let headers = generate_headers(None).unwrap();
    assert_eq!(
        headers,
        vec![
            ("user-agent".to_string(), "github.com/celeo/github_version_check".to_string()),
            ("accept".to_string(), "application/vnd.github.v3+json".to_string()),
        ]
    );
}

#[test]
fn headers_with_token() {
    let headers = generate_headers(Some("abcdef")).unwrap();
    assert_eq!(headers.len(), 3);
    assert_eq!(headers[2], ("authorization".to_string(), "Bearer abcdef".to_string()));
}

#[test]
fn headers_with_bad_token() {
    assert_eq!(generate_headers(Some("abc\ndef")), Err(LookupError::HeaderValue));
}

#[test]
fn url_of_releases() {
    assert_eq!(releases_url(DEFAULT_API_ROOT, "foo/bar"), "https://api.github.com/repos/foo/bar/releases");
    assert_eq!(PAGINATION_REQUEST_AMOUNT, 100);
}

#[test]
fn latest_version_unchanged_by_inserted_junk_tags() {
    let plain = latest_version(&tags(&[item("v1.0.0"), item("v2.0.0-beta"), item("v1.9.0")])).unwrap();
    let noisy = latest_version(&tags(&[
        item("nightly"),
        item("v1.0.0"),
        item("v2.0.0-beta"),
        item("release-3"),
        item("v1.9.0"),
        item("v"),
    ]))
    .unwrap();
    assert_eq!(plain.as_str(), noisy.as_str());
    assert_eq!(noisy.as_str(), "2.0.0-beta");
}

#[test]
fn last_page_key_after_underscore_is_not_page() {
    let link = b"<https://x/releases?x_page=4>; rel=\"last\"".to_vec();
    assert_eq!(last_page_from_link(&link), None);
}

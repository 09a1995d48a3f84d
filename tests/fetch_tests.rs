use dss_menu::fetcher::{DownloadState, DownloadTable, FetchStatus};

const URL: &str = "http://example.com/";

#[test]
fn repeated_requests_start_one_download() {
    let mut t = DownloadTable::new();
    let mut started = 0;
    for _ in 0..10 {
        let (status, start) = t.submit(URL.to_string());
        assert_eq!(status, FetchStatus::Pending);
        if start {
            started += 1;
        }
    }
    assert_eq!(started, 1);
    assert_eq!(t.state(&URL.to_string()), Some(&DownloadState::Pending));
}

#[test]
fn ready_resources_are_answered_from_the_table() {
    let mut t = DownloadTable::new();
    let (_, start) = t.submit(URL.to_string());
    assert!(start);
    t.complete(URL.to_string(), Ok("/tmp/page".to_string()));
    for _ in 0..10 {
        assert_eq!(t.submit(URL.to_string()), (FetchStatus::Ready("/tmp/page".to_string()), false));
    }
}

#[test]
fn failed_downloads_are_retried_once() {
    let mut t = DownloadTable::new();
    t.submit(URL.to_string());
    t.complete(URL.to_string(), Err("connection reset".to_string()));
    assert_eq!(
        t.submit(URL.to_string()),
        (FetchStatus::Failed("connection reset".to_string()), true)
    );
    assert_eq!(t.state(&URL.to_string()), Some(&DownloadState::Pending));
    for _ in 0..5 {
        assert_eq!(t.submit(URL.to_string()), (FetchStatus::Pending, false));
    }
    t.complete(URL.to_string(), Ok("/tmp/page".to_string()));
    assert_eq!(t.submit(URL.to_string()), (FetchStatus::Ready("/tmp/page".to_string()), false));
}

#[test]
fn locators_are_tracked_apart() {
    let mut t = DownloadTable::new();
    assert!(t.submit("http://a.com/".to_string()).1);
    assert!(t.submit("http://b.com/".to_string()).1);
    t.complete("http://b.com/".to_string(), Ok("/tmp/b".to_string()));
    assert_eq!(t.submit("http://a.com/".to_string()), (FetchStatus::Pending, false));
    assert_eq!(
        t.submit("http://b.com/".to_string()),
        (FetchStatus::Ready("/tmp/b".to_string()), false)
    );
}

use site_server::router::{handle_request, Service};
use site_server::webring::{
    direction_step, position, step_index, webring_request, webring_target, Webring, WebringEntry,
};

fn ring() -> Webring {
    Webring(vec![
        WebringEntry { name: "alice".to_string(), url: "https://alice.example".to_string() },
        WebringEntry { name: "bob".to_string(), url: "https://bob.example".to_string() },
        WebringEntry { name: "carol".to_string(), url: "https://carol.example".to_string() },
    ])
}

#[test]
fn routes_by_second_segment() {
    assert_eq!(handle_request("/particles/?type=view"), Service::Particles);
    assert_eq!(handle_request("/webring/next/?source=a"), Service::Webring);
    assert_eq!(handle_request("/index.html"), Service::Site);
    assert_eq!(handle_request("/"), Service::Site);
    assert_eq!(handle_request(""), Service::Site);
    assert_eq!(handle_request("/particlesx"), Service::Site);
}

#[test]
fn directions() {
    assert_eq!(direction_step("next"), Some(1));
    assert_eq!(direction_step("previous"), Some(-1));
    assert!(direction_step("random").is_some());
    assert_eq!(direction_step("Next"), None);
    assert_eq!(direction_step(""), None);
}

#[test]
fn webring_request_reads_direction_and_source() {
    let q = webring_request("/webring/next/?source=bob").unwrap();
    assert_eq!(q.step, 1);
    assert_eq!(q.source, "bob");
    let q = webring_request("/webring/previous/?source=b%6Fb").unwrap();
    assert_eq!(q.step, -1);
    assert_eq!(q.source, "bob");
}

#[test]
fn webring_request_refusals() {
    assert_eq!(webring_request("/webring").err(), Some(500));
    assert_eq!(webring_request("/webring/sideways/?source=bob").err(), Some(400));
    assert_eq!(webring_request("/webring/next/?from=bob").err(), Some(400));
    assert_eq!(webring_request("/webring/next/?source=%FF").err(), Some(400));
}

#[test]
fn ring_positions() {
    let r = ring();
    assert_eq!(position(&r, "alice"), Some(0));
    assert_eq!(position(&r, "carol"), Some(2));
    assert_eq!(position(&r, "dave"), None);
}

#[test]
fn ring_steps() {
    assert_eq!(step_index(0, 1, 3), 1);
    assert_eq!(step_index(2, 1, 3), 0);
    assert_eq!(step_index(1, -1, 3), 0);
    assert_eq!(step_index(2, -1, 3), 1);
    assert_eq!(step_index(0, -1, 3), usize::MAX % 3);
    assert_eq!(step_index(0, -1, 4), 3);
    assert_eq!(step_index(1, 7, 3), 2);
}

#[test]
fn targets() {
    let r = ring();
    assert_eq!(webring_target(&r, "alice", 1), Ok("https://bob.example".to_string()));
    assert_eq!(webring_target(&r, "carol", 1), Ok("https://alice.example".to_string()));
    assert_eq!(webring_target(&r, "bob", -1), Ok("https://alice.example".to_string()));
    assert_eq!(webring_target(&r, "dave", 1), Err(404));
    let empty = Webring(vec![]);
    assert_eq!(webring_target(&empty, "alice", 1), Err(404));
    assert!(webring_target(&r, "alice", 123456).is_ok());
}

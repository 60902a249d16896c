use egorec::video::{curation_stream_url, get_stream_url, stream_request_name};

#[test]
fn stream_url_percent_encodes_the_name() {
    assert_eq!(
        get_stream_url("day 1/caf\u{e9}~v2.egorec", true, Some(8123)),
        Ok(Some("http://localhost:8123/stream/day%201%2Fcaf%C3%A9~v2.egorec".to_string()))
    );
    assert_eq!(get_stream_url("a.egorec", true, None), Ok(None));
    assert_eq!(
        get_stream_url("missing.egorec", false, Some(1)),
        Err("File not found: missing.egorec".to_string())
    );
}

#[test]
fn curation_stream_url_encodes_the_path() {
    assert_eq!(
        curation_stream_url(9000, "/data/ws/ep 1.egorec"),
        "http://localhost:9000/curation-stream?path=%2Fdata%2Fws%2Fep%201.egorec"
    );
}

#[test]
fn stream_request_names_are_decoded() {
    assert_eq!(stream_request_name("day%201%2Fcaf%C3%A9.egorec"), "day 1/caf\u{e9}.egorec");
    assert_eq!(stream_request_name("plain+name"), "plain+name");
    assert_eq!(stream_request_name("%zz%4g%41%4"), "%zz%4gA%4");
    assert_eq!(stream_request_name("bad%C3"), "bad%C3");
}

#[test]
fn stream_url_names_decode_back() {
    for name in ["a b/c%d.egorec", "caf\u{e9} \u{1F600}+~.egorec", "", "%41"] {
        let url = get_stream_url(name, true, Some(80)).unwrap().unwrap();
        let segment = url.strip_prefix("http://localhost:80/stream/").unwrap();
        assert_eq!(stream_request_name(segment), name);
    }
}

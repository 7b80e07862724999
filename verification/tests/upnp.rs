use qstream::endpoint::Endpoint;
use qstream::upnp::{
    body_of, control_url, external_ip, get_request, internal_address, locations, locations_in,
    mapping_args, mapping_confirmed, parse_ip4, search_address, search_request, soap_request,
    split_url, tag_text,
};

#[test]
fn tag_extraction() {
    let xml = "<s:Envelope><s:Body><NewExternalIPAddress>203.0.113.9</NewExternalIPAddress></s:Body></s:Envelope>";
    assert_eq!(tag_text(xml, "NewExternalIPAddress"), Some("203.0.113.9".into()));
    assert_eq!(tag_text(xml, "Missing"), None);
}

#[test]
fn relative_control_url_resolution() {
    // WANIPConnection service + relative controlURL, resolved against
    // the description location.
    let desc = "<service><serviceType>urn:schemas-upnp-org:service:WANIPConnection:1</serviceType><controlURL>/ctl/IPConn</controlURL></service>";
    let location = "http://192.168.1.1:49152/desc.xml";
    assert_eq!(
        split_url("http://192.168.1.1:49152/ctl/IPConn").unwrap(),
        ("192.168.1.1:49152".to_string(), "/ctl/IPConn".to_string())
    );
    assert_eq!(
        control_url(location, desc),
        Some("http://192.168.1.1:49152/ctl/IPConn".to_string())
    );
}

#[test]
fn control_urls() {
    let wrap = |service: &str, url: &str| {
        format!("<a>{service}</a><controlURL> {url} </controlURL>")
    };
    let ip = "urn:schemas-upnp-org:service:WANIPConnection:1";
    let ppp = "urn:schemas-upnp-org:service:WANPPPConnection:1";
    assert_eq!(
        control_url("http://h:1/", &wrap(ppp, "ctl")),
        Some("http://h:1/ctl".to_string())
    );
    assert_eq!(
        control_url("http://h:1//", &wrap(ip, "/c")),
        Some("http://h:1/c".to_string())
    );
    assert_eq!(
        control_url("http://h:1/d.xml", &wrap(ip, "http://x/y")),
        Some("http://x/y".to_string())
    );
    for location in [
        "http://192.168.1.1:49152/desc.xml",
        "http://192.168.1.1:49152/desc.xml?a=/b",
        "http://192.168.1.1:49152",
    ] {
        assert_eq!(
            control_url(location, &wrap(ip, "ctl/IPConn")),
            Some("http://192.168.1.1:49152/ctl/IPConn".to_string())
        );
    }
    assert_eq!(
        control_url("http://h/a/b.xml", &wrap(ip, "c")),
        Some("http://h/a/c".to_string())
    );
    assert_eq!(
        control_url("http://h/a/", &wrap(ip, "c")),
        Some("http://h/a/c".to_string())
    );
    assert_eq!(control_url("h:1", &wrap(ip, "/c")), None);
    assert_eq!(control_url("h:1", &wrap(ip, "c")), None);
    assert_eq!(control_url("http://h", &wrap("other", "/c")), None);
    assert_eq!(control_url("http://h", ip), None);
}

#[test]
fn urls_without_a_path() {
    assert_eq!(
        split_url("http://host"),
        Some(("host".to_string(), "/".to_string()))
    );
    assert_eq!(split_url("https://host/"), None);
}

#[test]
fn bodies() {
    assert_eq!(body_of("H\r\n\r\nbody"), Some("body".to_string()));
    assert_eq!(body_of("H\r\nbody"), None);
}

#[test]
fn search_answers_are_read_in_lower_case() {
    let answer = b"HTTP/1.1 200 OK\r\nLOCATION: HTTP://192.168.1.1:80/Desc.xml \r\nST: x\r\n";
    assert_eq!(locations(answer), vec!["http://192.168.1.1:80/desc.xml".to_string()]);
    assert!(locations(b"\xff\xfe").is_empty());
    assert_eq!(locations_in("st: x\r\nlocation:  http://a/b \r\n"), vec!["http://a/b".to_string()]);
}

#[test]
fn the_search() {
    assert!(search_request().starts_with("M-SEARCH * HTTP/1.1\r\nHOST: 239.255.255.250:1900\r\n"));
    assert!(search_request().ends_with("\r\n\r\n"));
    assert_eq!(search_address().text(), "239.255.255.250:1900");
}

#[test]
fn requests() {
    assert_eq!(
        get_request("h:1", "/p"),
        "GET /p HTTP/1.1\r\nHost: h:1\r\nConnection: close\r\n\r\n"
    );
    let call = soap_request("h:1", "/p", "GetExternalIPAddress", "");
    let body = body_of(&call).unwrap();
    assert!(call.contains(&format!("Content-Length: {}\r\n", body.len())));
    assert!(call.contains(
        "SOAPAction: \"urn:schemas-upnp-org:service:WANIPConnection:1#GetExternalIPAddress\"\r\n"
    ));
    assert!(body.starts_with("<?xml version=\"1.0\"?>\n<s:Envelope "));
    assert!(body.ends_with("</u:GetExternalIPAddress>\n</s:Body>\n</s:Envelope>"));
    let args = mapping_args(54444, 0x0a00_0002);
    assert!(args.contains("<NewExternalPort>54444</NewExternalPort>"));
    assert!(args.contains("<NewInternalClient>10.0.0.2</NewInternalClient>"));
    assert!(mapping_confirmed("<u:AddPortMappingResponse/>"));
    assert!(!mapping_confirmed("<s:Fault/>"));
}

#[test]
fn addresses() {
    assert_eq!(parse_ip4("203.0.113.9"), Some(0xcb00_7109));
    assert_eq!(parse_ip4("0.0.0.0"), Some(0));
    assert_eq!(parse_ip4("1.2.3"), None);
    assert_eq!(parse_ip4("1.2.3.4.5"), None);
    assert_eq!(parse_ip4("01.2.3.4"), None);
    assert_eq!(parse_ip4("+1.2.3.4"), None);
    assert_eq!(parse_ip4("256.2.3.4"), None);
    assert_eq!(
        external_ip("<NewExternalIPAddress> 203.0.113.9 </NewExternalIPAddress>"),
        Some(0xcb00_7109)
    );
    assert_eq!(external_ip("<NewExternalIPAddress></NewExternalIPAddress>"), None);
    assert_eq!(external_ip(""), None);
    assert_eq!(internal_address(Endpoint::v4(10, 0, 0, 2, 5)), Some(0x0a00_0002));
    assert_eq!(internal_address(Endpoint::v4(127, 0, 0, 1, 5)), None);
}

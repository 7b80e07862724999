use qstream::endpoint::{octets, private_source, remote_public, same_ip4, Endpoint};

fn v6(ip: u128, port: u16, scope: u32) -> Endpoint {
    Endpoint::V6 {
        ip,
        port,
        flowinfo: 0,
        scope,
    }
}

#[test]
fn endpoints_in_text() {
    assert_eq!(Endpoint::v4(203, 0, 113, 7, 54444).text(), "203.0.113.7:54444");
    assert_eq!(v6(1, 80, 0).text(), "[::1]:80");
    assert_eq!(v6(0, 1, 0).text(), "[::]:1");
    assert_eq!(
        v6(0x2001_0db8_0000_0000_0001_0000_0000_0001, 443, 0).text(),
        "[2001:db8::1:0:0:1]:443"
    );
    assert_eq!(
        v6(0xfe80_0000_0000_0000_0000_0000_0000_00ff, 9, 3).text(),
        "[fe80::ff%3]:9"
    );
    assert_eq!(v6(0xffff_c0a8_0101, 5, 0).text(), "[::ffff:192.168.1.1]:5");
    assert_eq!(
        v6(0x0001_0002_0003_0004_0005_0006_0000_0008, 1, 0).text(),
        "[1:2:3:4:5:6:0:8]:1"
    );
}

#[test]
fn octets_of_an_address() {
    assert_eq!(octets(0xcb00_7107), (203, 0, 113, 7));
    assert_eq!(Endpoint::v4(203, 0, 113, 7, 1), Endpoint::V4 { ip: 0xcb00_7107, port: 1 });
}

#[test]
fn reachable_across_the_internet() {
    assert!(remote_public(Endpoint::v4(8, 8, 8, 8, 1)));
    assert!(!remote_public(Endpoint::v4(127, 3, 0, 1, 1)));
    assert!(!remote_public(Endpoint::v4(10, 0, 0, 1, 1)));
    assert!(!remote_public(Endpoint::v4(172, 16, 0, 1, 1)));
    assert!(!remote_public(Endpoint::v4(172, 31, 9, 9, 1)));
    assert!(remote_public(Endpoint::v4(172, 32, 0, 1, 1)));
    assert!(!remote_public(Endpoint::v4(192, 168, 5, 5, 1)));
    assert!(remote_public(Endpoint::v4(192, 169, 5, 5, 1)));
    assert!(!remote_public(Endpoint::v4(169, 254, 1, 1, 1)));
    assert!(remote_public(Endpoint::v4(169, 253, 1, 1, 1)));
    assert!(!remote_public(v6(1, 1, 0)));
    assert!(!remote_public(v6(0xfebf << 112, 1, 0)));
    assert!(remote_public(v6(0xfec0 << 112, 1, 0)));
}

#[test]
fn private_sources() {
    assert!(private_source(Endpoint::v4(192, 168, 0, 9, 1)));
    assert!(!private_source(Endpoint::v4(127, 0, 0, 1, 1)));
    assert!(!private_source(v6(1, 1, 0)));
}

#[test]
fn sharing_an_address() {
    assert!(same_ip4(Endpoint::v4(1, 2, 3, 4, 5), Endpoint::v4(1, 2, 3, 4, 6)));
    assert!(!same_ip4(Endpoint::v4(1, 2, 3, 4, 5), Endpoint::v4(1, 2, 3, 5, 5)));
    assert!(!same_ip4(v6(1, 1, 0), v6(1, 1, 0)));
}

#[test]
fn order_of_endpoints() {
    let a = Endpoint::v4(1, 2, 3, 4, 5);
    let b = Endpoint::v4(1, 2, 3, 4, 6);
    let c = Endpoint::v4(9, 0, 0, 0, 1);
    let d = v6(0, 0, 0);
    assert!(a.before(&b) && b.before(&c) && c.before(&d));
    assert!(!b.before(&a) && !a.before(&a) && !d.before(&c));
    assert!(v6(0, 0, 1).before(&v6(0, 0, 2)));
}

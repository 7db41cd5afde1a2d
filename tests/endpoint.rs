use load_balancer::endpoint::{Endpoint, InvalidEndpoint};

#[test]
fn parse_loopback() {
    assert_eq!(Endpoint::parse("127.0.0.1:8000"), Ok(Endpoint::new(127, 0, 0, 1, 8000)));
}

#[test]
fn parse_extremes() {
    assert_eq!(Endpoint::parse("0.0.0.0:0"), Ok(Endpoint::new(0, 0, 0, 0, 0)));
    assert_eq!(
        Endpoint::parse("255.255.255.255:65535"),
        Ok(Endpoint::new(255, 255, 255, 255, 65535))
    );
}

#[test]
fn parse_port_with_leading_zeros() {
    assert_eq!(Endpoint::parse("10.1.2.3:0080"), Ok(Endpoint::new(10, 1, 2, 3, 80)));
}

#[test]
fn parse_rejects_malformed_text() {
    for text in [
        "",
        "127.0.0.1",
        "127.0.0.1:",
        ":80",
        "127.0.0:80",
        "127.0.0.1.5:80",
        "256.0.0.1:80",
        "01.0.0.1:80",
        "1.2.3.4:65536",
        "1.2.3.4:+80",
        "a.b.c.d:80",
        "1.2.3.4:80:90",
        "1..3.4:80",
        " 1.2.3.4:80",
        "1.2.3.4:80 ",
        "1000.2.3.4:80",
    ] {
        assert_eq!(Endpoint::parse(text), Err(InvalidEndpoint), "{}", text);
    }
}

use scutil_parser::dns::{parse_text, ParseError, ResolverFlags};

fn fixture() -> &'static str {
    "DNS configuration

resolver #1
  search domain[0] : example.com
  nameserver[0] : 10.0.0.1
  flags    : Request A records, Request AAAA records
  reach    : 0x00000002 (Reachable)

resolver #2
  domain   : local
  options  : mdns
  timeout  : 5
  flags    : Request A records
  order    : 300000

resolver #3
  nameserver[0] : 2001:4860:4860::8888
  flags    : Request AAAA records

resolver #4
  domain   : 254.169.in-addr.arpa
  order    : 300200

resolver #5
  domain   : 8.e.f.ip6.arpa
  order    : 300400

resolver #6
  domain   : 9.e.f.ip6.arpa
  order    : 300600

resolver #7
  domain   : a.e.f.ip6.arpa
  order    : 300800

DNS configuration (for scoped queries)

resolver #1
  search domain[0] : subdomain.example.com
  nameserver[0] : 10.0.0.53
  if_index : 14 (en0)
  flags    : Scoped, Request A records, Request AAAA records
  reach    : 0x00000002 (Reachable)"
}

#[test]
fn test_from_file() {
    let filecontents = fixture();

    let res = match parse_text(filecontents) {
        Ok(res) => res,
        Err(err) => panic!("Could not parse text: {:?}", err),
    };

    assert!(res.scoped_dns_config.len() == 1);
    assert!(res.dns_config.len() == 7);

    assert_eq!(res.scoped_dns_config[0].id, 1);
    assert_eq!(
        res.scoped_dns_config[0].search_domains,
        vec!["subdomain.example.com".to_string()]
    );
}

#[test]
fn test_fixture_details() {
    let res = parse_text(fixture()).unwrap();
    let r1 = &res.dns_config[0];
    assert_eq!(r1.id, 1);
    assert_eq!(r1.search_domains, vec!["example.com".to_string()]);
    assert_eq!(r1.nameservers.get(&0), Some(&"10.0.0.1".to_string()));
    assert_eq!(
        r1.flags,
        vec![
            ResolverFlags::RequestARecords,
            ResolverFlags::RequestAAAARecords
        ]
    );
    assert_eq!(r1.reach, Some("0x00000002 (Reachable)".to_string()));

    let r2 = &res.dns_config[1];
    assert_eq!(r2.domain, Some("local".to_string()));
    assert_eq!(r2.options, Some("mdns".to_string()));
    assert_eq!(r2.timeout, Some(5));
    assert_eq!(r2.order, Some(300000));

    let r3 = &res.dns_config[2];
    assert_eq!(
        r3.nameservers.get(&0),
        Some(&"2001:4860:4860::8888".to_string())
    );

    let s1 = &res.scoped_dns_config[0];
    let ifx = s1.if_index.as_ref().unwrap();
    assert_eq!(ifx.index, 14);
    assert_eq!(ifx.interface, "en0");
    assert_eq!(
        s1.flags,
        vec![
            ResolverFlags::Scoped,
            ResolverFlags::RequestARecords,
            ResolverFlags::RequestAAAARecords
        ]
    );
}

#[test]
fn test_reparse_is_identical() {
    let a = parse_text(fixture());
    let b = parse_text(fixture());
    assert_eq!(a, b);
}

#[test]
fn test_empty_input() {
    let res = parse_text("").unwrap();
    assert!(res.dns_config.is_empty());
    assert!(res.scoped_dns_config.is_empty());
}

#[test]
fn test_sparse_nameserver_slot() {
    let input = "DNS configuration\n\nresolver #1\n  nameserver[2] : 10.0.0.1\n\n";
    let res = parse_text(input).unwrap();
    assert_eq!(res.dns_config.len(), 1);
    let ns = &res.dns_config[0].nameservers;
    assert_eq!(ns.len(), 1);
    assert_eq!(ns.get(&2), Some(&"10.0.0.1".to_string()));
    assert_eq!(ns.get(&0), None);
    assert_eq!(ns.get(&1), None);
}

#[test]
fn test_nameserver_slot_overwritten() {
    let input =
        "DNS configuration\n\nresolver #1\n  nameserver[0] : 10.0.0.1\n  nameserver[0] : 10.0.0.2\n\n";
    let res = parse_text(input).unwrap();
    let ns = &res.dns_config[0].nameservers;
    assert_eq!(ns.len(), 1);
    assert_eq!(ns.get(&0), Some(&"10.0.0.2".to_string()));
}

#[test]
fn test_flags_line_overwrites() {
    let input = "DNS configuration\n\nresolver #1\n  flags    : Scoped\n  flags    : Request A records\n\n";
    let res = parse_text(input).unwrap();
    assert_eq!(res.dns_config[0].flags, vec![ResolverFlags::RequestARecords]);
}

#[test]
fn test_bogus_flag_fails_parse() {
    let input = "DNS configuration\n\nresolver #1\n  flags    : Bogus flag\n\n";
    let res = parse_text(input);
    assert_eq!(res, Err(ParseError::FieldSyntaxError { line: 3 }));
}

#[test]
fn test_bad_ip_fails_parse() {
    let input = "DNS configuration\n\nresolver #1\n  nameserver[0] : 10.0.0.999\n\n";
    let res = parse_text(input);
    assert_eq!(res, Err(ParseError::FieldSyntaxError { line: 3 }));
}

#[test]
fn test_bad_order_fails_parse() {
    let input = "DNS configuration\n\nresolver #1\n  order    : notanumber\n\n";
    let res = parse_text(input);
    assert_eq!(res, Err(ParseError::FieldSyntaxError { line: 3 }));
}

#[test]
fn test_malformed_resolver_header_fails_parse() {
    let input = "DNS configuration\n\nresolver fail\n";
    let res = parse_text(input);
    assert_eq!(res, Err(ParseError::FieldSyntaxError { line: 2 }));
}

#[test]
fn test_nested_resolver_header_is_structural_error() {
    let input = "DNS configuration\n\nresolver #1\n  nameserver[0] : 10.0.0.1\nresolver #2\n";
    let res = parse_text(input);
    assert_eq!(res, Err(ParseError::StructuralError { line: 4 }));
}

#[test]
fn test_resolver_header_while_idle_is_structural_error() {
    let input = "resolver #1\n";
    let res = parse_text(input);
    assert_eq!(res, Err(ParseError::StructuralError { line: 0 }));
}

#[test]
fn test_blank_line_while_idle_is_structural_error() {
    let input = "\nDNS configuration\n";
    let res = parse_text(input);
    assert_eq!(res, Err(ParseError::StructuralError { line: 0 }));
}

#[test]
fn test_unrecognized_line_is_structural_error() {
    let input = "DNS configuration\n\nwhatever else\n";
    let res = parse_text(input);
    assert_eq!(res, Err(ParseError::StructuralError { line: 2 }));
}

#[test]
fn test_resolver_index_accepts_plus_sign() {
    let input = "DNS configuration\n\nresolver #+3\n\n";
    let res = parse_text(input).unwrap();
    assert_eq!(res.dns_config.len(), 1);
    assert_eq!(res.dns_config[0].id, 3);
}

#[test]
fn test_trailing_global_block_kept() {
    let input = "DNS configuration\n\nresolver #8\n  if_index : 14 (en0)";
    let res = parse_text(input).unwrap();
    assert_eq!(res.dns_config.len(), 1);
    assert_eq!(res.dns_config[0].id, 8);
    assert!(res.dns_config[0].nameservers.is_empty());
    let ifx = res.dns_config[0].if_index.as_ref().unwrap();
    assert_eq!(ifx.index, 14);
    assert_eq!(ifx.interface, "en0");
}

#[test]
fn test_trailing_global_block_with_nameservers_dropped() {
    let input =
        "DNS configuration\n\nresolver #8\n  nameserver[0] : 10.0.0.1\n  if_index : 14 (en0)";
    let res = parse_text(input).unwrap();
    assert_eq!(res.dns_config.len(), 0);
}

#[test]
fn test_trailing_scoped_block_needs_nameservers() {
    let with_ns = "DNS configuration (for scoped queries)\n\nresolver #1\n  nameserver[0] : 10.0.0.1\n  if_index : 14 (en0)";
    let res = parse_text(with_ns).unwrap();
    assert_eq!(res.scoped_dns_config.len(), 1);

    let without_ns = "DNS configuration (for scoped queries)\n\nresolver #1\n  if_index : 14 (en0)";
    let res = parse_text(without_ns).unwrap();
    assert_eq!(res.scoped_dns_config.len(), 0);
}

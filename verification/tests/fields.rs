use scutil_parser::dns::{decode_flags, decode_nameserver, FieldError, InterfaceIndex, Resolver, ResolverFlags};

#[test]
fn test_flags_line() {
    let test_line = "  flags    : Scoped, Request A records, Request AAAA records";
    let test_line = test_line.trim().split(':').last().map(|s| s.trim());
    let test_line = test_line.expect("Failed to get tail");
    let res = test_line
        .split(',')
        .map(|s| ResolverFlags::from_str(s.trim()))
        .collect::<Result<Vec<ResolverFlags>, FieldError>>();
    assert!(res.expect("failed to parse").len() == 3);
}

#[test]
fn test_flags_order_preserved() {
    let res = decode_flags(" Scoped, Request A records, Request AAAA records").unwrap();
    assert_eq!(
        res,
        vec![
            ResolverFlags::Scoped,
            ResolverFlags::RequestARecords,
            ResolverFlags::RequestAAAARecords
        ]
    );
}

#[test]
fn test_flag_from_str_exact() {
    assert_eq!(
        ResolverFlags::from_str("Request A records"),
        Ok(ResolverFlags::RequestARecords)
    );
    assert_eq!(
        ResolverFlags::from_str("Request AAAA records"),
        Ok(ResolverFlags::RequestAAAARecords)
    );
    assert_eq!(ResolverFlags::from_str("Scoped"), Ok(ResolverFlags::Scoped));
    assert_eq!(
        ResolverFlags::from_str("Scoped "),
        Err(FieldError::InvalidFlag)
    );
    assert_eq!(
        ResolverFlags::from_str("Bogus flag"),
        Err(FieldError::InvalidFlag)
    );
}

#[test]
fn test_flag_name() {
    assert_eq!(ResolverFlags::RequestARecords.name(), "Request A records");
    assert_eq!(
        ResolverFlags::RequestAAAARecords.name(),
        "Request AAAA records"
    );
    assert_eq!(ResolverFlags::Scoped.name(), "Scoped");
}

#[test]
fn test_bogus_flag_in_list() {
    let res = decode_flags(" Scoped, Bogus flag");
    assert_eq!(res, Err(FieldError::InvalidFlag));
}

#[test]
fn test_if_index_from_str() {
    let v = InterfaceIndex::from_str("if_index : 14 (en0)").unwrap();
    assert_eq!(v.index, 14);
    assert_eq!(v.interface, "en0");

    let v = InterfaceIndex::from_str("if_index : 5 lo0").unwrap();
    assert_eq!(v.index, 5);
    assert_eq!(v.interface, "lo0");

    let v = InterfaceIndex::from_str("if_index : 5").unwrap();
    assert_eq!(v.index, 5);
    assert_eq!(v.interface, "");

    assert!(InterfaceIndex::from_str("if_index").is_err());
    assert!(InterfaceIndex::from_str("if_index : nope (en0)").is_err());
}

#[test]
fn test_decode_nameserver_line() {
    let (slot, addr) = decode_nameserver("nameserver[2] : 10.0.0.1").unwrap();
    assert_eq!(slot, 2);
    assert_eq!(addr, "10.0.0.1");

    assert!(decode_nameserver("nameserver[] : 10.0.0.1").is_err());
    assert!(decode_nameserver("nameserver[2]: 10.0.0.1").is_err());
    assert!(decode_nameserver("nameserver[2] :").is_err());
}

#[test]
fn test_empty_flags_tail_is_invalid() {
    assert_eq!(decode_flags(""), Err(FieldError::InvalidFlag));
    assert_eq!(decode_flags(" , Scoped"), Err(FieldError::InvalidFlag));
}

#[test]
fn test_resolver_default_is_new_zero() {
    assert_eq!(Resolver::default(), Resolver::new(0));
}

#[test]
fn test_resolver_new_is_empty() {
    let r = Resolver::new(3);
    assert_eq!(r.id, 3);
    assert!(r.search_domains.is_empty());
    assert!(r.nameservers.is_empty());
    assert!(r.if_index.is_none());
    assert!(r.flags.is_empty());
    assert!(r.reach.is_none());
    assert!(r.order.is_none());
    assert!(r.domain.is_none());
    assert!(r.timeout.is_none());
    assert!(r.options.is_none());
}

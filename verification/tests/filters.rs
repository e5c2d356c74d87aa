use rust_wireshark::DFilter;
use rust_wireshark::Error;
use rust_wireshark::FType;
use rust_wireshark::FValue;
use rust_wireshark::ProtoTree;
use rust_wireshark::Session;
use rust_wireshark::TreeBuilder;
use rust_wireshark::WtapRec;

fn dns_tree() -> ProtoTree {
    let mut b = TreeBuilder::new("frame".to_string(), None);
    let ip = b.add_node(0, "ip".to_string(), None).unwrap();
    b.add_node(
        ip,
        "ip.src".to_string(),
        Some(FValue::new(
            "10.0.0.1".to_string(),
            Some(4),
            FType::new(2, 4, "FT_IPv4".to_string()),
        )),
    )
    .unwrap();
    let udp = b.add_node(0, "udp".to_string(), None).unwrap();
    b.add_node(
        udp,
        "udp.port".to_string(),
        Some(FValue::new(
            "53".to_string(),
            Some(2),
            FType::new(3, 2, "FT_UINT16".to_string()),
        )),
    )
    .unwrap();
    b.finish()
}

fn dissected() -> rust_wireshark::ParsedRec {
    let session = Session::new();
    let mut rec = WtapRec::new();
    let mut prec = session.new_prec(&mut rec);
    prec.dissect(dns_tree());
    prec
}

#[test]
fn valid_filter_compiles() {
    assert!(DFilter::new("udp.port == 53".to_string()).is_ok());
}

#[test]
fn invalid_filter_carries_diagnostic() {
    match DFilter::new("udp.port ===".to_string()) {
        Err(Error::InvalidFilter(msg)) => assert!(!msg.is_empty()),
        _ => panic!("compilation should fail with an invalid-filter error"),
    }
}

#[test]
fn equality_filter_matches_field_value() {
    let prec = dissected();
    let yes = DFilter::new("udp.port == 53".to_string()).unwrap();
    assert!(yes.apply_rec(&prec).unwrap());
    let no = DFilter::new("udp.port == 54".to_string()).unwrap();
    assert!(!no.apply_rec(&prec).unwrap());
}

#[test]
fn presence_filter_matches_abbreviation() {
    let prec = dissected();
    let yes = DFilter::new("ip.src".to_string()).unwrap();
    assert!(yes.apply_rec(&prec).unwrap());
    let no = DFilter::new("tcp.port".to_string()).unwrap();
    assert!(!no.apply_rec(&prec).unwrap());
}

#[test]
fn boolean_connectives() {
    let prec = dissected();
    let both = DFilter::new("ip.src and udp.port == 53".to_string()).unwrap();
    assert!(both.apply_rec(&prec).unwrap());
    let either = DFilter::new("tcp.port or udp.port == 53".to_string()).unwrap();
    assert!(either.apply_rec(&prec).unwrap());
    let neither = DFilter::new("tcp.port or tcp.flags".to_string()).unwrap();
    assert!(!neither.apply_rec(&prec).unwrap());
    let negated = DFilter::new("not tcp.port".to_string()).unwrap();
    assert!(negated.apply_rec(&prec).unwrap());
    let symbols = DFilter::new("ip.src && !(tcp.port || udp.port != 53)".to_string()).unwrap();
    assert!(symbols.apply_rec(&prec).unwrap());
}

#[test]
fn numeric_comparisons() {
    let prec = dissected();
    assert!(DFilter::new("udp.port < 100".to_string())
        .unwrap()
        .apply_rec(&prec)
        .unwrap());
    assert!(DFilter::new("udp.port <= 53".to_string())
        .unwrap()
        .apply_rec(&prec)
        .unwrap());
    assert!(DFilter::new("udp.port > 52".to_string())
        .unwrap()
        .apply_rec(&prec)
        .unwrap());
    assert!(DFilter::new("udp.port >= 54".to_string())
        .unwrap()
        .apply_rec(&prec)
        .unwrap()
        == false);
    // Ordering against a non-decimal representation never matches.
    assert!(!DFilter::new("ip.src < 100".to_string())
        .unwrap()
        .apply_rec(&prec)
        .unwrap());
}

#[test]
fn compile_failures() {
    assert!(matches!(
        DFilter::new("udp.port == ".to_string()),
        Err(Error::InvalidFilter(_))
    ));
    assert!(matches!(
        DFilter::new("(udp.port == 53".to_string()),
        Err(Error::InvalidFilter(_))
    ));
    assert!(matches!(
        DFilter::new("udp.port = 53".to_string()),
        Err(Error::InvalidFilter(_))
    ));
    assert!(matches!(
        DFilter::new("udp.port == 53 extra junk ==".to_string()),
        Err(Error::InvalidFilter(_))
    ));
    assert!(matches!(
        DFilter::new("& udp.port".to_string()),
        Err(Error::InvalidFilter(_))
    ));
}

use coretex::error::{Error, ErrorKind};

#[test]
fn every_failure_has_its_kind_and_keeps_its_message() {
    let cases = vec![
        (Error::Io("disk".to_string()), ErrorKind::Io),
        (Error::Serialization("shape".to_string()), ErrorKind::Serialization),
        (Error::Storage("engine".to_string()), ErrorKind::Storage),
        (Error::Communication("peer".to_string()), ErrorKind::Communication),
        (Error::Consistency("quorum".to_string()), ErrorKind::Consistency),
        (Error::Membership("node".to_string()), ErrorKind::Membership),
        (Error::Configuration("factor".to_string()), ErrorKind::Configuration),
    ];
    let messages = ["disk", "shape", "engine", "peer", "quorum", "node", "factor"];
    for ((error, kind), message) in cases.into_iter().zip(messages) {
        assert_eq!(error.kind(), kind);
        assert_eq!(error.message(), message);
    }
}

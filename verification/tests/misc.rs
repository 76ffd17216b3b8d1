use recollection::channel::sender;
use recollection::config::{Config, Keys, ServerConfig};
use recollection::error::RecolError;
use recollection::init;

#[test]
fn init_reports_ok() {
    assert!(init().is_ok());
}

#[test]
fn sender_is_callable() {
    sender();
}

#[test]
fn default_config_is_empty() {
    let c = Config::default();
    assert!(!c.debug);
    assert!(c.keys.is_none());
    assert!(c.server.is_none());
    let k = Keys::default();
    assert_eq!(k.username, "");
    assert_eq!(k.secret, "");
    let s = ServerConfig::default();
    assert_eq!(s.ip, "");
    assert!(s.port.is_none());
}

#[test]
fn errors_describe_themselves() {
    let e = RecolError::General("went wrong".to_string());
    assert_eq!(e.describe(), "went wrong");
    let io = RecolError::from(std::io::Error::new(
        std::io::ErrorKind::NotFound,
        "missing",
    ));
    assert_eq!(io.describe(), "I/O error");
    let txt = format!("{:?}", e);
    assert!(txt.contains("General"));
}

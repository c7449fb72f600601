use tran::errors::ErrorKind;
use tran::errors::TranError;

#[test]
fn every_error_has_its_kind() {
    let m = || "m".to_string();
    assert_eq!(TranError::ConfigError(m()).kind(), ErrorKind::Config);
    assert_eq!(TranError::FileReadError(m()).kind(), ErrorKind::FileRead);
    assert_eq!(TranError::FileNotFoundError(m()).kind(), ErrorKind::FileNotFound);
    assert_eq!(TranError::WritingConfigError(m()).kind(), ErrorKind::WritingConfig);
    assert_eq!(TranError::PngFormatError(m()).kind(), ErrorKind::PngFormat);
    assert_eq!(TranError::UnsupportedError(m()).kind(), ErrorKind::Unsupported);
}

#[test]
fn errors_are_shown_with_their_lead_in() {
    assert_eq!(TranError::ConfigError("x y".to_string()).to_string(), "Error reading config: x y");
    assert_eq!(TranError::FileReadError(String::new()).to_string(), "Error reading file ");
    assert_eq!(TranError::UnsupportedError(String::new()).to_string(), "");
}

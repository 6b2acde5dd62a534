// error_chain: flatten an error and its source() chain into one message.
use std::error::Error;
use std::fmt;

#[derive(Debug)]
struct Wrap {
    msg: &'static str,
    source: Option<Box<dyn Error>>,
}

impl fmt::Display for Wrap {
    fn fmt(&self, f: &mut fmt::Formatter<'_>) -> fmt::Result {
        f.write_str(self.msg)
    }
}

impl Error for Wrap {
    fn source(&self) -> Option<&(dyn Error + 'static)> {
        self.source.as_deref()
    }
}

/// The messages of an error and of its chain of causes, outermost first.
fn chain_messages(err: &dyn Error) -> Vec<String> {
    let mut out = vec![err.to_string()];
    let mut src = err.source();
    while let Some(e) = src {
        out.push(e.to_string());
        src = e.source();
    }
    out
}

#[test]
fn formats_error_and_its_source_chain() {
    let inner = Wrap { msg: "connection reset", source: None };
    let middle = Wrap { msg: "error decoding response body", source: Some(Box::new(inner)) };
    let outer = Wrap { msg: "GET failed", source: Some(Box::new(middle)) };

    assert_eq!(
        alamo::error_chain(&chain_messages(&outer)),
        "GET failed: error decoding response body: connection reset"
    );
}

#[test]
fn single_error_with_no_source_is_just_its_message() {
    let e = Wrap { msg: "boom", source: None };
    assert_eq!(alamo::error_chain(&chain_messages(&e)), "boom");
}

#[test]
fn error_chain_of_no_messages_is_empty() {
    assert_eq!(alamo::error_chain(&Vec::new()), "");
}

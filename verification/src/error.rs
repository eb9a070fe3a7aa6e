use vstd::prelude::*;
use vstd::string::*;

verus! {

/// The one error type of the library.
#[derive(Debug)]
pub enum Error {
    /// Input or output failed; the text is the system's own description.
    Io(String),
    /// Bytes that are no valid D-Bus data: a bad signature, a length out of bounds.
    Protocol(String),
    /// The bus refused the authentication.
    Auth(String),
    /// The bus answered a call with an error.
    Dbus { name: String, message: String },
    /// No answer came in time.
    Timeout(String),
    /// The configuration could not be read or written.
    Config(String),
    /// The command line is wrong.
    Cli(String),
}

/// What an [`Error`] says, as a mathematical value.
pub enum ErrorView {
    Io(Seq<char>),
    Protocol(Seq<char>),
    Auth(Seq<char>),
    Dbus { name: Seq<char>, message: Seq<char> },
    Timeout(Seq<char>),
    Config(Seq<char>),
    Cli(Seq<char>),
}

impl View for Error {
    type V = ErrorView;

    open spec fn view(&self) -> ErrorView {
        match self {
            Error::Io(s) => ErrorView::Io(s@),
            Error::Protocol(s) => ErrorView::Protocol(s@),
            Error::Auth(s) => ErrorView::Auth(s@),
            Error::Dbus { name, message } => ErrorView::Dbus { name: name@, message: message@ },
            Error::Timeout(s) => ErrorView::Timeout(s@),
            Error::Config(s) => ErrorView::Config(s@),
            Error::Cli(s) => ErrorView::Cli(s@),
        }
    }
}

impl ErrorView {
    /// The line shown to the user.
    pub open spec fn text(self) -> Seq<char> {
        match self {
            ErrorView::Io(s) => "IO 错误: "@ + s,
            ErrorView::Protocol(s) => "协议错误: "@ + s,
            ErrorView::Auth(s) => "认证失败: "@ + s,
            ErrorView::Dbus { name, message } => "D-Bus 错误 "@ + name + ": "@ + message,
            ErrorView::Timeout(s) => "超时: "@ + s,
            ErrorView::Config(s) => "配置错误: "@ + s,
            ErrorView::Cli(s) => "参数错误: "@ + s,
        }
    }
}

impl Error {
    /// The line shown to the user.
    pub fn text(&self) -> (r: String)
        ensures
            r@ == self@.text(),
    {
        match self {
            Error::Io(s) => "IO 错误: ".to_string().concat(s),
            Error::Protocol(s) => "协议错误: ".to_string().concat(s),
            Error::Auth(s) => "认证失败: ".to_string().concat(s),
            Error::Dbus { name, message } => "D-Bus 错误 ".to_string().concat(name).concat(
                ": ",
            ).concat(message),
            Error::Timeout(s) => "超时: ".to_string().concat(s),
            Error::Config(s) => "配置错误: ".to_string().concat(s),
            Error::Cli(s) => "参数错误: ".to_string().concat(s),
        }
    }
}

/// A D-Bus format error with the given description.
pub(crate) fn protocol(s: &str) -> (r: Error)
    ensures
        r@ == ErrorView::Protocol(s@),
{
    Error::Protocol(s.to_string())
}

/// The line for an error begins with what kind of error it is and ends with what it says; that of
/// an error from the bus names the error between the two.
pub proof fn law_error_lines(s: Seq<char>, name: Seq<char>)
    ensures
        ErrorView::Io(s).text() == "IO 错误: "@ + s,
        ErrorView::Protocol(s).text() == "协议错误: "@ + s,
        ErrorView::Auth(s).text() == "认证失败: "@ + s,
        ErrorView::Timeout(s).text() == "超时: "@ + s,
        ErrorView::Config(s).text() == "配置错误: "@ + s,
        ErrorView::Cli(s).text() == "参数错误: "@ + s,
        (ErrorView::Dbus { name, message: s }).text() == "D-Bus 错误 "@ + name + ": "@ + s,
{
}

} // verus!

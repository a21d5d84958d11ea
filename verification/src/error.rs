//! What can go wrong.

use crate::text::join;
use vstd::prelude::*;

verus! {

/// `std::io::Error`, an error of the operating system or of a stream.
#[verifier::external_type_specification]
#[verifier::external_body]
pub struct ExIoError(std::io::Error);

#[derive(Debug)]
pub enum Error {
    Wayland(String),
    NoScreencopyManager,
    NoOutput,
    FrameFailed,
    WebRTC(String),
    Io(std::io::Error),
    DmaBuf(String),
    PipeWire(String),
    ConsumerDisconnected,
    NoBackend,
}

pub type Result<T> = std::result::Result<T, Error>;

/// `std::io::Error`'s text, as its `Display` writes it. For an error of the
/// operating system that text comes from the machine, so nothing is claimed of
/// it.
#[verifier::external_body]
fn io_text(e: &std::io::Error) -> (text: String) {
    e.to_string()
}

impl Error {
    /// The message of an error that carries none of the system's own text.
    pub open spec fn known_message(self) -> Option<Seq<char>> {
        match self {
            Error::Wayland(e) => Some("Wayland: "@ + e@),
            Error::NoScreencopyManager => Some("zwlr_screencopy_manager_v1 не знайдено"@),
            Error::NoOutput => Some("wl_output не знайдено"@),
            Error::FrameFailed => Some("захоплення кадру провалилось"@),
            Error::WebRTC(e) => Some("WebRTC: "@ + e@),
            Error::Io(_) => None,
            Error::DmaBuf(e) => Some("DMA-BUF: "@ + e@),
            Error::PipeWire(e) => Some("PipeWire: "@ + e@),
            Error::ConsumerDisconnected => Some("приймач кадрів відключився"@),
            Error::NoBackend => Some("немає доступного бекенду захоплення"@),
        }
    }

    /// The error in words. The text of a stream error follows its label.
    pub fn message(&self) -> (m: String)
        ensures
            match self.known_message() {
                Some(text) => m@ == text,
                None => exists|text: Seq<char>| m@ == io_message(text),
            },
    {
        match self {
            Error::Wayland(e) => join("Wayland: ", e.as_str()),
            Error::NoScreencopyManager => "zwlr_screencopy_manager_v1 не знайдено".to_owned(),
            Error::NoOutput => "wl_output не знайдено".to_owned(),
            Error::FrameFailed => "захоплення кадру провалилось".to_owned(),
            Error::WebRTC(e) => join("WebRTC: ", e.as_str()),
            Error::Io(e) => {
                let text: String = io_text(e);
                labelled_io(text.as_str())
            },
            Error::DmaBuf(e) => join("DMA-BUF: ", e.as_str()),
            Error::PipeWire(e) => join("PipeWire: ", e.as_str()),
            Error::ConsumerDisconnected => "приймач кадрів відключився".to_owned(),
            Error::NoBackend => "немає доступного бекенду захоплення".to_owned(),
        }
    }
}

/// The message of a stream error whose own text is `text`.
pub open spec fn io_message(text: Seq<char>) -> Seq<char> {
    "IO: "@ + text
}

/// Labels the text of a stream error.
pub fn labelled_io(text: &str) -> (m: String)
    ensures
        m@ == io_message(text@),
{
    join("IO: ", text)
}

impl From<std::io::Error> for Error {
    fn from(e: std::io::Error) -> (r: Self) {
        Error::Io(e)
    }
}

impl vstd::std_specs::convert::FromSpecImpl<std::io::Error> for Error {
    open spec fn obeys_from_spec() -> bool {
        true
    }

    open spec fn from_spec(e: std::io::Error) -> Self {
        Error::Io(e)
    }
}

} // verus!

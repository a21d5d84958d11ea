use screen_streamer::error::{labelled_io, Error};

#[test]
fn display_formats_include_the_underlying_message() {
    assert_eq!(Error::WebRTC("boom".into()).message(), "WebRTC: boom");
    assert_eq!(Error::DmaBuf("x".into()).message(), "DMA-BUF: x");
    assert_eq!(Error::PipeWire("y".into()).message(), "PipeWire: y");
    assert_eq!(Error::Wayland("z".into()).message(), "Wayland: z");
}

#[test]
fn variantless_errors_still_produce_readable_messages() {
    assert!(!Error::NoBackend.message().is_empty());
    assert!(!Error::NoScreencopyManager.message().is_empty());
    assert!(!Error::NoOutput.message().is_empty());
    assert!(!Error::FrameFailed.message().is_empty());
    assert!(!Error::ConsumerDisconnected.message().is_empty());
}

#[test]
fn io_error_converts_via_from_and_keeps_its_message() {
    let io_err = std::io::Error::new(std::io::ErrorKind::NotFound, "nope");
    let err: Error = io_err.into();
    assert!(matches!(err, Error::Io(_)));
    assert!(err.message().contains("nope"));
    assert_eq!(err.message(), "IO: nope");
}

#[test]
fn messages_name_the_missing_protocol_object() {
    assert_eq!(
        Error::NoScreencopyManager.message(),
        "zwlr_screencopy_manager_v1 не знайдено"
    );
    assert_eq!(Error::NoOutput.message(), "wl_output не знайдено");
    assert_eq!(Error::FrameFailed.message(), "захоплення кадру провалилось");
    assert_eq!(Error::ConsumerDisconnected.message(), "приймач кадрів відключився");
    assert_eq!(Error::NoBackend.message(), "немає доступного бекенду захоплення");
    assert_eq!(labelled_io("disk full"), "IO: disk full");
}

use sidecar_core::protocol::{command_text, error_event, transcription_event, Event};

#[test]
fn transcription_text_is_trimmed() {
    assert_eq!(
        transcription_event(Ok("  hello world \n".to_string())),
        Some(Event::Phrase {
            text: "hello world".to_string()
        })
    );
    assert_eq!(
        transcription_event(Ok("\u{3000}tab\t".to_string())),
        Some(Event::Phrase {
            text: "tab".to_string()
        })
    );
}

#[test]
fn empty_transcription_is_not_reported() {
    assert_eq!(transcription_event(Ok(String::new())), None);
    assert_eq!(transcription_event(Ok(" \t\r\n ".to_string())), None);
}

#[test]
fn failed_transcription_is_reported_as_error() {
    assert_eq!(
        transcription_event(Err("model crashed".to_string())),
        Some(Event::Error {
            msg: "transcribe: model crashed".to_string()
        })
    );
}

#[test]
fn error_message_has_context() {
    assert_eq!(
        error_event("set_mic", "input device not found: USB"),
        Event::Error {
            msg: "set_mic: input device not found: USB".to_string()
        }
    );
}

#[test]
fn blank_command_lines_are_skipped() {
    assert_eq!(command_text(""), None);
    assert_eq!(command_text("   \t"), None);
    assert_eq!(command_text("  {\"type\":\"quit\"}\n"), Some("{\"type\":\"quit\"}"));
}

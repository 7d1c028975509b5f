use llm_engine::transcription::{
    detect_audio_format, detect_file_extension, GoogleTranscriptionClient, TranscriptionError,
    TranscriptionProvider,
};

#[test]
fn detects_wav_extension() {
    assert_eq!(detect_file_extension("audio/wav"), "wav");
    assert_eq!(detect_file_extension("audio/x-wav"), "wav");
}

#[test]
fn detects_mp3_extension() {
    assert_eq!(detect_file_extension("audio/mp3"), "mp3");
    assert_eq!(detect_file_extension("audio/mpeg"), "mp3");
    assert_eq!(detect_file_extension("audio/mpga"), "mp3");
}

#[test]
fn detects_webm_extension() {
    assert_eq!(detect_file_extension("audio/webm"), "webm");
}

#[test]
fn defaults_to_webm_for_unknown() {
    assert_eq!(detect_file_extension("audio/unknown"), "webm");
}

#[test]
fn detects_wav_format() {
    assert_eq!(detect_audio_format("audio/wav"), "wav");
    assert_eq!(detect_audio_format("audio/x-wav"), "wav");
}

#[test]
fn audio_format_names_mp3_and_mp4() {
    assert_eq!(detect_audio_format("audio/mp3"), "mp3");
    assert_eq!(detect_audio_format("audio/mp4"), "mp4");
}

#[test]
fn detects_webm_format() {
    assert_eq!(detect_audio_format("audio/webm"), "webm");
}

#[test]
fn defaults_to_wav_for_unknown() {
    assert_eq!(detect_audio_format("audio/unknown"), "wav");
}

#[test]
fn provider_ids_round_trip() {
    for p in [
        TranscriptionProvider::OpenRouter,
        TranscriptionProvider::OpenAI,
        TranscriptionProvider::Google,
        TranscriptionProvider::Groq,
    ] {
        assert_eq!(TranscriptionProvider::from_id(p.as_id()), Some(p));
    }
    assert_eq!(TranscriptionProvider::from_id("azure"), None);
    assert_eq!(TranscriptionProvider::Groq.as_id(), "groq");
}

#[test]
fn transcription_error_messages() {
    assert_eq!(
        TranscriptionError::ApiKeyNotConfigured("Groq".to_string()).to_message(),
        "Groq API key not configured"
    );
    assert_eq!(
        TranscriptionError::EmptyResult.to_message(),
        "Transcription returned empty text"
    );
    assert_eq!(
        TranscriptionError::RequestFailed("timeout".to_string()).to_message(),
        "Transcription failed: timeout"
    );
}

#[test]
fn google_client_base_urls() {
    assert_eq!(
        GoogleTranscriptionClient::new().base_url_text(),
        "https://generativelanguage.googleapis.com/v1beta"
    );
    assert_eq!(
        GoogleTranscriptionClient::with_base_url("http://localhost:1".to_string()).base_url_text(),
        "http://localhost:1"
    );
}

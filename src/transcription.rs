use vstd::prelude::*;
use vstd::string::StringExecFns;
use crate::json::text_eq;
use crate::text::{contains_str, has_sub};

verus! {

/// The services that can turn speech into text.
#[derive(Debug, Clone, Copy, PartialEq, Eq, Structural)]
pub enum TranscriptionProvider {
    OpenRouter,
    OpenAI,
    Google,
    Groq,
}

pub open spec fn provider_id_text(p: TranscriptionProvider) -> Seq<char> {
    match p {
        TranscriptionProvider::OpenRouter => "openrouter"@,
        TranscriptionProvider::OpenAI => "openai"@,
        TranscriptionProvider::Google => "google"@,
        TranscriptionProvider::Groq => "groq"@,
    }
}

/// The provider that an id names: the inverse of `provider_id_text`.
pub open spec fn provider_of_id(id: Seq<char>) -> Option<TranscriptionProvider> {
    if id == "openrouter"@ {
        Some(TranscriptionProvider::OpenRouter)
    } else if id == "openai"@ {
        Some(TranscriptionProvider::OpenAI)
    } else if id == "google"@ {
        Some(TranscriptionProvider::Google)
    } else if id == "groq"@ {
        Some(TranscriptionProvider::Groq)
    } else {
        None
    }
}

impl TranscriptionProvider {
    /// The provider with the given id.
    pub fn from_id(id: &str) -> (r: Option<TranscriptionProvider>)
        ensures
            r == provider_of_id(id@),
    {
        if text_eq(id, "openrouter") {
            Some(TranscriptionProvider::OpenRouter)
        } else if text_eq(id, "openai") {
            Some(TranscriptionProvider::OpenAI)
        } else if text_eq(id, "google") {
            Some(TranscriptionProvider::Google)
        } else if text_eq(id, "groq") {
            Some(TranscriptionProvider::Groq)
        } else {
            None
        }
    }

    /// The provider's id.
    pub fn as_id(&self) -> (r: &'static str)
        ensures
            r@ == provider_id_text(*self),
    {
        match self {
            TranscriptionProvider::OpenRouter => "openrouter",
            TranscriptionProvider::OpenAI => "openai",
            TranscriptionProvider::Google => "google",
            TranscriptionProvider::Groq => "groq",
        }
    }
}

/// Why a transcription failed.
#[derive(Debug, Clone)]
pub enum TranscriptionError {
    NoModelConfigured,
    NoAvailableProvider,
    ProviderNotSupported(String),
    ApiKeyNotConfigured(String),
    RequestFailed(String),
    ParseError(String),
    EmptyResult,
}

pub open spec fn error_text(e: TranscriptionError) -> Seq<char> {
    match e {
        TranscriptionError::NoModelConfigured => "No transcription model configured. Please select a transcription model in settings."@,
        TranscriptionError::NoAvailableProvider => "No available provider for transcription. Please configure API keys in settings."@,
        TranscriptionError::ProviderNotSupported(p) => "Transcription not supported for provider: "@ + p@,
        TranscriptionError::ApiKeyNotConfigured(p) => p@ + " API key not configured"@,
        TranscriptionError::RequestFailed(m) => "Transcription failed: "@ + m@,
        TranscriptionError::ParseError(m) => "Failed to parse response: "@ + m@,
        TranscriptionError::EmptyResult => "Transcription returned empty text"@,
    }
}

impl TranscriptionError {
    /// The message shown to the user.
    pub fn to_message(&self) -> (r: String)
        ensures
            r@ == error_text(*self),
    {
        match self {
            TranscriptionError::NoModelConfigured => String::from_str(
                "No transcription model configured. Please select a transcription model in settings.",
            ),
            TranscriptionError::NoAvailableProvider => String::from_str(
                "No available provider for transcription. Please configure API keys in settings.",
            ),
            TranscriptionError::ProviderNotSupported(p) => {
                let mut s = String::from_str("Transcription not supported for provider: ");
                s.append(p.as_str());
                s
            },
            TranscriptionError::ApiKeyNotConfigured(p) => {
                let mut s = p.clone();
                s.append(" API key not configured");
                s
            },
            TranscriptionError::RequestFailed(m) => {
                let mut s = String::from_str("Transcription failed: ");
                s.append(m.as_str());
                s
            },
            TranscriptionError::ParseError(m) => {
                let mut s = String::from_str("Failed to parse response: ");
                s.append(m.as_str());
                s
            },
            TranscriptionError::EmptyResult => String::from_str("Transcription returned empty text"),
        }
    }
}

/// The file extension for an audio MIME type, as the upload endpoint expects it.
pub open spec fn file_extension_spec(mime: Seq<char>) -> Seq<char> {
    if has_sub(mime, "wav"@) {
        "wav"@
    } else if has_sub(mime, "mp3"@) || has_sub(mime, "mpeg"@) {
        "mp3"@
    } else if has_sub(mime, "webm"@) {
        "webm"@
    } else if has_sub(mime, "ogg"@) || has_sub(mime, "oga"@) {
        "ogg"@
    } else if has_sub(mime, "m4a"@) || has_sub(mime, "mp4"@) {
        "m4a"@
    } else if has_sub(mime, "flac"@) {
        "flac"@
    } else if has_sub(mime, "mpga"@) {
        "mp3"@
    } else {
        "webm"@
    }
}

/// The file extension for an audio MIME type; `webm` when none is recognised.
pub fn detect_file_extension(mime_type: &str) -> (r: &'static str)
    ensures
        r@ == file_extension_spec(mime_type@),
{
    if contains_str(mime_type, "wav") {
        "wav"
    } else if contains_str(mime_type, "mp3") || contains_str(mime_type, "mpeg") {
        "mp3"
    } else if contains_str(mime_type, "webm") {
        "webm"
    } else if contains_str(mime_type, "ogg") || contains_str(mime_type, "oga") {
        "ogg"
    } else if contains_str(mime_type, "m4a") || contains_str(mime_type, "mp4") {
        "m4a"
    } else if contains_str(mime_type, "flac") {
        "flac"
    } else if contains_str(mime_type, "mpga") {
        "mp3"
    } else {
        "webm"
    }
}

/// The audio format name for an inline-audio request.
pub open spec fn audio_format_spec(mime: Seq<char>) -> Seq<char> {
    if has_sub(mime, "wav"@) {
        "wav"@
    } else if has_sub(mime, "mp3"@) {
        "mp3"@
    } else if has_sub(mime, "webm"@) {
        "webm"@
    } else if has_sub(mime, "ogg"@) {
        "ogg"@
    } else if has_sub(mime, "m4a"@) {
        "m4a"@
    } else if has_sub(mime, "mp4"@) {
        "mp4"@
    } else {
        "wav"@
    }
}

/// The audio format name for a MIME type; `wav` when none is recognised.
pub fn detect_audio_format(mime_type: &str) -> (r: String)
    ensures
        r@ == audio_format_spec(mime_type@),
{
    let f = if contains_str(mime_type, "wav") {
        "wav"
    } else if contains_str(mime_type, "mp3") {
        "mp3"
    } else if contains_str(mime_type, "webm") {
        "webm"
    } else if contains_str(mime_type, "ogg") {
        "ogg"
    } else if contains_str(mime_type, "m4a") {
        "m4a"
    } else if contains_str(mime_type, "mp4") {
        "mp4"
    } else {
        "wav"
    };
    String::from_str(f)
}

/// The Gemini transcription endpoint.
pub struct GoogleTranscriptionClient {
    base_url: String,
}

impl GoogleTranscriptionClient {
    /// A client for the public Gemini API.
    pub fn new() -> (r: GoogleTranscriptionClient)
        ensures
            r.base_url()@ == "https://generativelanguage.googleapis.com/v1beta"@,
    {
        GoogleTranscriptionClient { base_url: String::from_str("https://generativelanguage.googleapis.com/v1beta") }
    }

    /// A client for another base URL.
    pub fn with_base_url(base_url: String) -> (r: GoogleTranscriptionClient)
        ensures
            r.base_url()@ == base_url@,
    {
        GoogleTranscriptionClient { base_url }
    }

    pub closed spec fn base_url(&self) -> String {
        self.base_url
    }

    /// The base URL requests go to.
    pub fn base_url_text(&self) -> (r: &str)
        ensures
            r@ == self.base_url()@,
    {
        self.base_url.as_str()
    }
}

} // verus!

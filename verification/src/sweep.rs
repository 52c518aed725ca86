//! Transcript sweeps: how sessions are discovered, the transcript formats,
//! and how far into each format a watermark counts.
use std::time::Duration;
use vstd::prelude::*;
use vstd::string::*;

verus! {

/// Strategy for discovering new/updated sessions.
#[derive(Debug, Clone, Copy, PartialEq, Eq)]
pub enum SweepStrategy {
    /// Periodic polling at the given interval
    Periodic(Duration),
    /// File system watcher (not implemented yet)
    FsWatcher,
    /// HTTP API polling (not implemented yet)
    HttpApi,
    /// No sweep support for this agent
    Unsupported,
}

/// How a watermark marks the read position in a transcript.
#[derive(Debug, Clone, Copy, PartialEq, Eq, Structural)]
pub enum WatermarkType {
    /// A byte offset into an append-only file.
    ByteOffset,
    /// A byte offset together with a record count.
    Hybrid,
    /// The number of records read.
    RecordIndex,
    /// The time of the last record read.
    Timestamp,
}

/// Transcript file format enum
#[derive(Debug, Clone, Copy, PartialEq, Eq, Structural)]
pub enum TranscriptFormat {
    ClaudeJsonl,
    CursorJsonl,
    DroidJsonl,
    CopilotSessionJson,
    CopilotEventStreamJsonl,
    GeminiJsonl,
    ContinueJson,
    WindsurfJsonl,
    CodexJsonl,
    AmpThreadJson,
    OpenCodeSqlite,
    PiJsonl,
}

/// The watermark each format is read with: append-only JSONL files by byte
/// offset, Droid's by byte offset and record count, whole-document JSON by
/// record index, and the SQLite store by timestamp.
pub open spec fn format_watermark(format: TranscriptFormat) -> WatermarkType {
    match format {
        TranscriptFormat::ClaudeJsonl | TranscriptFormat::CursorJsonl
        | TranscriptFormat::GeminiJsonl | TranscriptFormat::WindsurfJsonl
        | TranscriptFormat::CodexJsonl | TranscriptFormat::PiJsonl
        | TranscriptFormat::CopilotEventStreamJsonl => WatermarkType::ByteOffset,
        TranscriptFormat::DroidJsonl => WatermarkType::Hybrid,
        TranscriptFormat::CopilotSessionJson | TranscriptFormat::ContinueJson
        | TranscriptFormat::AmpThreadJson => WatermarkType::RecordIndex,
        TranscriptFormat::OpenCodeSqlite => WatermarkType::Timestamp,
    }
}

/// The name of each format, as it is displayed.
pub open spec fn format_name(format: TranscriptFormat) -> Seq<char> {
    match format {
        TranscriptFormat::ClaudeJsonl => "ClaudeJsonl"@,
        TranscriptFormat::CursorJsonl => "CursorJsonl"@,
        TranscriptFormat::DroidJsonl => "DroidJsonl"@,
        TranscriptFormat::CopilotSessionJson => "CopilotSessionJson"@,
        TranscriptFormat::CopilotEventStreamJsonl => "CopilotEventStreamJsonl"@,
        TranscriptFormat::GeminiJsonl => "GeminiJsonl"@,
        TranscriptFormat::ContinueJson => "ContinueJson"@,
        TranscriptFormat::WindsurfJsonl => "WindsurfJsonl"@,
        TranscriptFormat::CodexJsonl => "CodexJsonl"@,
        TranscriptFormat::AmpThreadJson => "AmpThreadJson"@,
        TranscriptFormat::OpenCodeSqlite => "OpenCodeSqlite"@,
        TranscriptFormat::PiJsonl => "PiJsonl"@,
    }
}

impl TranscriptFormat {
    /// The watermark this format is read with.
    pub fn watermark_type(self) -> (r: WatermarkType)
        ensures
            r == format_watermark(self),
    {
        match self {
            TranscriptFormat::ClaudeJsonl | TranscriptFormat::CursorJsonl
            | TranscriptFormat::GeminiJsonl | TranscriptFormat::WindsurfJsonl
            | TranscriptFormat::CodexJsonl | TranscriptFormat::PiJsonl
            | TranscriptFormat::CopilotEventStreamJsonl => WatermarkType::ByteOffset,
            TranscriptFormat::DroidJsonl => WatermarkType::Hybrid,
            TranscriptFormat::CopilotSessionJson | TranscriptFormat::ContinueJson
            | TranscriptFormat::AmpThreadJson => WatermarkType::RecordIndex,
            TranscriptFormat::OpenCodeSqlite => WatermarkType::Timestamp,
        }
    }

    /// The name of the format, as it is displayed.
    pub fn to_string(&self) -> (r: String)
        ensures
            r@ == format_name(*self),
    {
        let name = match self {
            TranscriptFormat::ClaudeJsonl => "ClaudeJsonl",
            TranscriptFormat::CursorJsonl => "CursorJsonl",
            TranscriptFormat::DroidJsonl => "DroidJsonl",
            TranscriptFormat::CopilotSessionJson => "CopilotSessionJson",
            TranscriptFormat::CopilotEventStreamJsonl => "CopilotEventStreamJsonl",
            TranscriptFormat::GeminiJsonl => "GeminiJsonl",
            TranscriptFormat::ContinueJson => "ContinueJson",
            TranscriptFormat::WindsurfJsonl => "WindsurfJsonl",
            TranscriptFormat::CodexJsonl => "CodexJsonl",
            TranscriptFormat::AmpThreadJson => "AmpThreadJson",
            TranscriptFormat::OpenCodeSqlite => "OpenCodeSqlite",
            TranscriptFormat::PiJsonl => "PiJsonl",
        };
        String::from_str(name)
    }
}

/// A session discovered during a sweep.
#[derive(Debug, Clone)]
pub struct DiscoveredSession {
    pub session_id: String,
    pub tool: String,
    pub transcript_path: String,
    pub transcript_format: TranscriptFormat,
    pub watermark_type: WatermarkType,
    /// The watermark to start from, in its serialized form.
    pub initial_watermark: String,
    pub external_session_id: String,
    pub external_parent_session_id: Option<String>,
}

} // verus!

//! The snapshot extractor: turns the raw clipboard reads handed in by the
//! platform layer into a normalized, previewed [`ClipboardSnapshot`].

use vstd::prelude::*;
use vstd::string::*;
use crate::preview::{build_file_preview, build_text_preview, file_preview_spec, text_preview_spec};
use crate::text::{normalize_newlines, normalized_spec, trim_spec, trim_str};
use crate::ClipboardError;

verus! {

/// A single captured clipboard content instance, not yet persisted.
pub struct ClipboardSnapshot {
    /// `"text"` or `"file"`.
    pub content_type: String,
    /// The normalized text, or the serialized path list for files.
    pub content: String,
    /// The bounded display preview derived from the content.
    pub preview: String,
}

/// The dedup signature of a snapshot: its type and content, joined by a colon.
pub open spec fn signature_spec(content_type: Seq<char>, content: Seq<char>) -> Seq<char> {
    content_type + ":"@ + content
}

impl ClipboardSnapshot {
    /// The short-term dedup key of this snapshot; never persisted.
    pub fn signature(&self) -> (r: String)
        ensures
            r@ == signature_spec(self.content_type@, self.content@),
    {
        let mut s = self.content_type.clone();
        s.append(":");
        s.append(self.content.as_str());
        s
    }
}

/// The JSON rendering of a list of path strings, as the serializer writes
/// it; a function of the strings alone.
pub uninterp spec fn json_of_paths(files: Seq<Seq<char>>) -> Seq<char>;

/// Relies on serde_json::to_string: serializing a list of strings depends
/// only on the strings, yields their JSON array text, and cannot fail —
/// string serialization is infallible and a sequence is not a map.
#[verifier::external_body]
fn paths_to_json(files: &Vec<String>) -> (r: Option<String>)
    ensures
        r is Some,
        r matches Some(s) ==> s@ == json_of_paths(files.deep_view()),
{
    serde_json::to_string(files).ok()
}

/// Builds a snapshot from the platform reads of one clipboard change:
/// text takes priority over files; text that trims to nothing and empty
/// file lists yield no snapshot.
pub fn snapshot_from_reads(text: Option<String>, files: Option<Vec<String>>) -> (r: Result<
    Option<ClipboardSnapshot>,
    ClipboardError,
>)
    ensures
        r is Ok,
        (text is Some && trim_spec(normalized_spec(text->0@)).len() == 0) ==> r->Ok_0 is None,
        (text is Some && trim_spec(normalized_spec(text->0@)).len() > 0) ==> (r->Ok_0 is Some
            && r->Ok_0->0.content_type@ == "text"@ && r->Ok_0->0.content@ == normalized_spec(
            text->0@,
        ) && r->Ok_0->0.preview@ == text_preview_spec(normalized_spec(text->0@))),
        (text is None && files is Some && files->0@.len() > 0) ==> (r->Ok_0 is Some
            && r->Ok_0->0.content_type@ == "file"@ && r->Ok_0->0.content@ == json_of_paths(
            files->0.deep_view(),
        ) && r->Ok_0->0.preview@ == file_preview_spec(files->0.deep_view())),
        (text is None && files is Some && files->0@.len() == 0) ==> r->Ok_0 is None,
        (text is None && files is None) ==> r->Ok_0 is None,
{
    match text {
        Some(t) => {
            let normalized = normalize_newlines(t.as_str());
            let trimmed = trim_str(normalized.as_str());
            if trimmed.as_str().unicode_len() == 0 {
                Ok(None)
            } else {
                let preview = build_text_preview(normalized.as_str());
                Ok(
                    Some(
                        ClipboardSnapshot {
                            content_type: String::from_str("text"),
                            content: normalized,
                            preview,
                        },
                    ),
                )
            }
        },
        None => {
            match files {
                Some(fs) => {
                    if fs.len() > 0 {
                        let preview = build_file_preview(&fs);
                        match paths_to_json(&fs) {
                            Some(content) => Ok(
                                Some(
                                    ClipboardSnapshot {
                                        content_type: String::from_str("file"),
                                        content,
                                        preview,
                                    },
                                ),
                            ),
                            None => {
                                // string serialization cannot fail
                                proof {
                                    assert(false);
                                }
                                Err(ClipboardError::ExtractionFailed)
                            },
                        }
                    } else {
                        Ok(None)
                    }
                },
                None => Ok(None),
            }
        },
    }
}

} // verus!

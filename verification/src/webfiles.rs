//! Replies for the embedded web client's files: the content type is
//! chosen from the file's extension.
use vstd::prelude::*;
use vstd::string::StringSliceAdditionalSpecFns;

use crate::paths::{has_ext_spec, HasExtension};

verus! {

/// One file served to the browser: content tagged with a content type
/// and charset, bare content, or nothing.
pub enum WebfileReply {
    WithHeader(&'static str, &'static str, Vec<u8>),
    Raw(Vec<u8>),
    Error,
}

/// The content type served for a path, by its extension; `None` when the
/// content goes out untyped.
pub open spec fn content_type_of(p: Seq<u8>) -> Option<Seq<char>> {
    if has_ext_spec(p, "html".spec_bytes()) {
        Some("text/html"@)
    } else if has_ext_spec(p, "js".spec_bytes()) {
        Some("text/javascript"@)
    } else if has_ext_spec(p, "css".spec_bytes()) {
        Some("text/css"@)
    } else if has_ext_spec(p, "json".spec_bytes()) {
        Some("application/json"@)
    } else if has_ext_spec(p, "svg".spec_bytes()) {
        Some("image/svg+xml"@)
    } else {
        None
    }
}

impl WebfileReply {
    /// Tags the content with the content type its path's extension
    /// calls for; unknown extensions go out raw.
    pub fn new(path: &String, content: Vec<u8>) -> (r: Self)
        ensures
            (match content_type_of(path.path_bytes()) {
                Some(t) => r matches WebfileReply::WithHeader(ct, cs, data) && ct@ == t && cs@
                    == "utf-8"@ && data@ == content@,
                None => r matches WebfileReply::Raw(data) && data@ == content@,
            }),
    {
        if path.has_extension("html") {
            return WebfileReply::WithHeader("text/html", "utf-8", content);
        }
        if path.has_extension("js") {
            return WebfileReply::WithHeader("text/javascript", "utf-8", content);
        }
        if path.has_extension("css") {
            return WebfileReply::WithHeader("text/css", "utf-8", content);
        }
        if path.has_extension("json") {
            return WebfileReply::WithHeader("application/json", "utf-8", content);
        }
        if path.has_extension("svg") {
            return WebfileReply::WithHeader("image/svg+xml", "utf-8", content);
        }
        WebfileReply::Raw(content)
    }
}

} // verus!

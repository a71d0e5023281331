//! Uploaded files and the path planning for storing them. The bytes of a
//! file arrive from the multipart body codec; writing them to disk is the
//! surrounding program's job, directed by the destination path computed
//! here.

use vstd::prelude::*;

verus! {

/// A file received in a multipart body.
pub struct UploadedFile {
    pub filename: String,
    pub content_type: Option<String>,
    pub content: Vec<u8>,
    pub extension: String,
    pub size: u64,
}

/// Plans where an uploaded file's bytes should be stored: an optional
/// target directory and an optional basename, with defaults for both.
pub struct Uploader<'a> {
    pub file: &'a UploadedFile,
    pub filename: Option<String>,
    pub path: Option<String>,
}

/// The directory uploads land in when no other is chosen.
pub open spec fn spec_default_upload_dir() -> Seq<char> {
    "src/storage/uploads"@
}

/// The full destination path: directory, slash, basename, dot, extension.
pub open spec fn spec_destination(u: Uploader, fallback: Seq<char>) -> Seq<char> {
    (match u.path {
        Some(p) => p@,
        None => spec_default_upload_dir(),
    }) + "/"@ + (match u.filename {
        Some(f) => f@,
        None => fallback,
    }) + "."@ + u.file.extension@
}

impl<'a> Uploader<'a> {
    pub fn new(file: &'a UploadedFile) -> (r: Uploader<'a>)
        ensures
            r.file == file,
            r.filename is None,
            r.path is None,
    {
        Uploader { file, filename: None, path: None }
    }

    pub fn with_filename(self, filename: String) -> (r: Uploader<'a>)
        ensures
            r == (Uploader { filename: Some(filename), ..self }),
    {
        Uploader { filename: Some(filename), ..self }
    }

    pub fn with_path(self, path: String) -> (r: Uploader<'a>)
        ensures
            r == (Uploader { path: Some(path), ..self }),
    {
        Uploader { path: Some(path), ..self }
    }

    /// The path the file's bytes should be written to; `fallback` names the
    /// file when no name was chosen (callers pass a timestamp).
    pub fn destination_path(&self, fallback: &str) -> (r: String)
        ensures
            r@ == spec_destination(*self, fallback@),
    {
        let mut s: String = match &self.path {
            Some(p) => p.clone(),
            None => "src/storage/uploads".to_owned(),
        };
        s.append("/");
        match &self.filename {
            Some(f) => s.append(f.as_str()),
            None => s.append(fallback),
        }
        s.append(".");
        s.append(self.file.extension.as_str());
        proof {
            assert(s@ =~= spec_destination(*self, fallback@));
        }
        s
    }
}

impl UploadedFile {
    /// Begin planning an upload of this file.
    pub fn uploader(&self) -> (r: Uploader<'_>)
        ensures
            r.file == self,
            r.filename is None,
            r.path is None,
    {
        Uploader::new(self)
    }
}

} // verus!

//! File records and the metadata extractor: content hash, mimetype derived
//! from the file extension, and the optional last-modified timestamp.

use vstd::prelude::*;
use sha2::Digest;

verus! {

/// Mathematical model of a file record.
#[verifier::ext_equal]
pub ghost struct RecordView {
    pub relative_path: Seq<char>,
    pub content: Seq<u8>,
    pub hash: Seq<u8>,
    pub mimetype: Seq<char>,
    pub last_modified: Option<u64>,
}

/// One file bound to its normalized relative path: raw bytes, a fixed-width
/// content digest, a mimetype, and an optional last-modified time in seconds.
pub struct FileRecord {
    pub relative_path: String,
    pub content: Vec<u8>,
    pub hash: Vec<u8>,
    pub mimetype: String,
    pub last_modified: Option<u64>,
}

impl View for FileRecord {
    type V = RecordView;

    open spec fn view(&self) -> RecordView {
        RecordView {
            relative_path: self.relative_path@,
            content: self.content@,
            hash: self.hash@,
            mimetype: self.mimetype@,
            last_modified: self.last_modified,
        }
    }
}

/// The SHA-256 digest of a byte sequence, named but not written out: the
/// digest is a function of the bytes alone.
pub uninterp spec fn sha256_of(bytes: Seq<u8>) -> Seq<u8>;

/// Relies on sha2's `Sha256`: the digest depends on the input bytes alone
/// and is always 32 bytes long.
#[verifier::external_body]
pub(crate) fn sha256(bytes: &[u8]) -> (r: Vec<u8>)
    ensures
        r@ == sha256_of(bytes@),
        r@.len() == 32,
{
    let mut hasher = sha2::Sha256::new();
    hasher.update(bytes);
    hasher.finalize().to_vec()
}

/// Index of the last occurrence of `c` in `s`, if any.
pub open spec fn rfind(s: Seq<char>, c: char) -> Option<int>
    decreases s.len(),
{
    if s.len() == 0 {
        None
    } else if s[s.len() - 1] == c {
        Some(s.len() - 1)
    } else {
        rfind(s.take(s.len() - 1), c)
    }
}

/// The last occurrence is an occurrence, and nothing after it is one.
pub proof fn lemma_rfind_char(s: Seq<char>, c: char)
    ensures
        (rfind(s, c) matches Some(k) ==> 0 <= k < s.len() && s[k] == c && forall|j: int|
            k < j < s.len() ==> s[j] != c),
        (rfind(s, c) is None ==> forall|j: int| 0 <= j < s.len() ==> s[j] != c),
    decreases s.len(),
{
    if s.len() > 0 && s[s.len() - 1] != c {
        let t = s.take(s.len() - 1);
        lemma_rfind_char(t, c);
        assert(forall|j: int| 0 <= j < t.len() ==> t[j] == s[j]);
        match rfind(t, c) {
            Some(k1) => {
                assert(s[k1] == c);
                assert forall|j: int| k1 < j < s.len() implies s[j] != c by {
                    if j < s.len() - 1 {
                        assert(t[j] != c);
                    }
                }
            },
            None => {
                assert forall|j: int| 0 <= j < s.len() implies s[j] != c by {
                    if j < s.len() - 1 {
                        assert(t[j] != c);
                    }
                }
            },
        }
    }
}

/// The extension of a path: what follows the last dot, provided that dot
/// lies in the last segment; empty when there is none.
pub open spec fn extension_of(path: Seq<char>) -> Seq<char> {
    match rfind(path, '.') {
        None => Seq::empty(),
        Some(d) => {
            let ext = path.skip(d + 1);
            if exists|j: int| 0 <= j < ext.len() && ext[j] == '/' {
                Seq::empty()
            } else {
                ext
            }
        },
    }
}

/// Extracts the extension of a path.
pub fn extension_str(path: &str) -> (r: String)
    ensures
        r@ == extension_of(path@),
{
    let n = path.unicode_len();
    let mut i: usize = n;
    while i > 0
        invariant
            i <= n,
            n == path@.len(),
            forall|j: int| i <= j < n ==> path@[j] != '.' && path@[j] != '/',
        decreases i,
    {
        let c = path.get_char(i - 1);
        if c == '.' {
            proof {
                lemma_rfind_char(path@, '.');
                if rfind(path@, '.') is None {
                    assert(false);
                }
                let k = rfind(path@, '.')->Some_0;
                if k < i - 1 {
                    assert(path@[i - 1] != '.');
                    assert(false);
                }
                if k > i - 1 {
                    assert(path@[k] != '.');
                    assert(false);
                }
                let ext = path@.skip(i as int);
                assert(forall|j: int| 0 <= j < ext.len() ==> ext[j] == path@[j + i]);
                assert(!(exists|j: int| 0 <= j < ext.len() && ext[j] == '/'));
            }
            let rest = path.substring_char(i, n);
            proof {
                assert(rest@ =~= path@.skip(i as int));
            }
            return rest.to_owned();
        }
        if c == '/' {
            proof {
                lemma_rfind_char(path@, '.');
                if rfind(path@, '.') is Some {
                    let d = rfind(path@, '.')->Some_0;
                    assert(path@[d] == '.');
                    assert(d < i - 1);
                    let ext = path@.skip(d + 1);
                    assert(ext[i - 1 - d - 1] == path@[i - 1]);
                }
                assert(extension_of(path@) =~= Seq::<char>::empty());
            }
            return String::new();
        }
        i = i - 1;
    }
    proof {
        lemma_rfind_char(path@, '.');
        if rfind(path@, '.') is Some {
            let d = rfind(path@, '.')->Some_0;
            assert(path@[d] != '.');
            assert(false);
        }
        assert(extension_of(path@) =~= Seq::<char>::empty());
    }
    String::new()
}

/// The extension lookup table behind mimetype derivation; unrecognized
/// extensions fall back to the generic octet-stream type.
pub open spec fn mime_of_ext(ext: Seq<char>) -> Seq<char> {
    if ext == "html"@ || ext == "htm"@ {
        "text/html"@
    } else if ext == "css"@ {
        "text/css"@
    } else if ext == "js"@ || ext == "mjs"@ {
        "text/javascript"@
    } else if ext == "json"@ {
        "application/json"@
    } else if ext == "png"@ {
        "image/png"@
    } else if ext == "jpg"@ || ext == "jpeg"@ {
        "image/jpeg"@
    } else if ext == "gif"@ {
        "image/gif"@
    } else if ext == "svg"@ {
        "image/svg+xml"@
    } else if ext == "ico"@ {
        "image/x-icon"@
    } else if ext == "txt"@ {
        "text/plain"@
    } else if ext == "wasm"@ {
        "application/wasm"@
    } else if ext == "woff2"@ {
        "font/woff2"@
    } else if ext == "pdf"@ {
        "application/pdf"@
    } else if ext == "webmanifest"@ {
        "application/manifest+json"@
    } else {
        "application/octet-stream"@
    }
}

/// The mimetype a path is served with, by its extension.
pub open spec fn mime_of_path(path: Seq<char>) -> Seq<char> {
    mime_of_ext(extension_of(path))
}

/// Derives the mimetype of a path from its extension.
pub fn mimetype_of(path: &str) -> (r: String)
    ensures
        r@ == mime_of_path(path@),
{
    let ext = extension_str(path);
    let e = ext.as_str();
    if crate::paths::str_eq(e, "html") || crate::paths::str_eq(e, "htm") {
        "text/html".to_owned()
    } else if crate::paths::str_eq(e, "css") {
        "text/css".to_owned()
    } else if crate::paths::str_eq(e, "js") || crate::paths::str_eq(e, "mjs") {
        "text/javascript".to_owned()
    } else if crate::paths::str_eq(e, "json") {
        "application/json".to_owned()
    } else if crate::paths::str_eq(e, "png") {
        "image/png".to_owned()
    } else if crate::paths::str_eq(e, "jpg") || crate::paths::str_eq(e, "jpeg") {
        "image/jpeg".to_owned()
    } else if crate::paths::str_eq(e, "gif") {
        "image/gif".to_owned()
    } else if crate::paths::str_eq(e, "svg") {
        "image/svg+xml".to_owned()
    } else if crate::paths::str_eq(e, "ico") {
        "image/x-icon".to_owned()
    } else if crate::paths::str_eq(e, "txt") {
        "text/plain".to_owned()
    } else if crate::paths::str_eq(e, "wasm") {
        "application/wasm".to_owned()
    } else if crate::paths::str_eq(e, "woff2") {
        "font/woff2".to_owned()
    } else if crate::paths::str_eq(e, "pdf") {
        "application/pdf".to_owned()
    } else if crate::paths::str_eq(e, "webmanifest") {
        "application/manifest+json".to_owned()
    } else {
        "application/octet-stream".to_owned()
    }
}

/// The record the metadata extractor yields for a path with the given bytes
/// and timestamp: the hash and mimetype are functions of path and content.
pub open spec fn record_model(path: Seq<char>, content: Seq<u8>, lm: Option<u64>) -> RecordView {
    RecordView {
        relative_path: path,
        content: content,
        hash: sha256_of(content),
        mimetype: mime_of_path(path),
        last_modified: lm,
    }
}

/// Builds the record for one file: computes the content digest and the
/// mimetype; the timestamp is carried through, absence included.
pub fn build_record(rel_path: String, content: Vec<u8>, last_modified: Option<u64>) -> (r:
    FileRecord)
    ensures
        r@ == record_model(rel_path@, content@, last_modified),
        r@.hash.len() == 32,
{
    let hash = sha256(content.as_slice());
    let mimetype = mimetype_of(rel_path.as_str());
    let r = FileRecord { relative_path: rel_path, content, hash, mimetype, last_modified };
    proof {
        assert(r@ =~= record_model(r.relative_path@, r.content@, last_modified));
    }
    r
}

impl FileRecord {
    /// A copy of the record, equal to it in the model.
    pub fn clone_record(&self) -> (r: FileRecord)
        ensures
            r@ == self@,
    {
        let r = FileRecord {
            relative_path: self.relative_path.clone(),
            content: vstd::slice::slice_to_vec(self.content.as_slice()),
            hash: vstd::slice::slice_to_vec(self.hash.as_slice()),
            mimetype: self.mimetype.clone(),
            last_modified: self.last_modified,
        };
        proof {
            assert(r@ =~= self@);
        }
        r
    }
}

} // verus!

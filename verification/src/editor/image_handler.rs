//! Paths for pasted image assets: each image goes into a
//! `<document-stem>-assets/` directory next to the document, under a fresh
//! random file name. The host creates the directory and writes the file.

use vstd::prelude::*;

verus! {

use vstd::string::StringExecFns;
use crate::ui::tab_bar::{file_name_of, last_char_index, stem_of};

/// The path of a new image asset: the document's directory (when the path
/// has one), then `<stem>-assets/<file>.<extension>`.
pub open spec fn image_path_model(doc: Seq<char>, ext: Seq<char>, file: Seq<char>) -> Seq<
    char,
> {
    let dir_prefix = match doc.index_of_last('/') {
        Option::Some(i) => doc.subrange(0, i) + "/"@,
        Option::None => Seq::<char>::empty(),
    };
    dir_prefix + stem_of(file_name_of(doc)) + "-assets/"@ + file + "."@ + ext
}

/// Whether every character could come from a hyphenated lowercase UUID.
pub open spec fn uuid_chars(s: Seq<char>) -> bool {
    forall|i: int|
        0 <= i < s.len() ==> ('0' <= #[trigger] s[i] <= '9' || 'a' <= s[i] <= 'f' || s[i]
            == '-')
}

/// Relies on `uuid::Uuid::new_v4` and its `Display` form: a fresh random
/// UUID, formatted hyphenated as 36 ASCII characters — lowercase hex digits
/// and hyphens. Nothing is assumed about which UUID comes back.
#[verifier::external_body]
fn fresh_uuid_string() -> (r: String)
    ensures
        r@.len() == 36,
        uuid_chars(r@),
{
    uuid::Uuid::new_v4().to_string()
}

/// Assemble the asset path for a given file name: the document's directory,
/// the `<stem>-assets` directory named after the document, and the file
/// name with the supplied extension.
pub fn assemble_image_path(doc_path: &str, extension: &str, file_name: &str) -> (r: String)
    ensures
        r@ == image_path_model(doc_path@, extension@, file_name@),
{
    let path_len = doc_path.unicode_len();
    let mut out = String::new();
    let stem: &str = match last_char_index(doc_path, '/') {
        Option::Some(i) => {
            let dir = doc_path.substring_char(0, i);
            out.append(dir);
            out.append("/");
            proof {
                assert(Seq::<char>::empty() + dir@ =~= dir@);
            }
            doc_path.substring_char(i + 1, path_len)
        },
        Option::None => doc_path,
    };
    let file = stem;
    let stem_cut: &str = match last_char_index(file, '.') {
        Option::Some(i) => if i > 0 {
            file.substring_char(0, i)
        } else {
            file
        },
        Option::None => file,
    };
    out.append(stem_cut);
    out.append("-assets/");
    out.append(file_name);
    out.append(".");
    out.append(extension);
    out
}

/// Generate a unique file path for a new image asset, next to the document.
///
/// The `<document-stem>-assets/` directory is **not** created here: callers
/// create it before writing. Each call draws a fresh random UUID for the
/// file name, so the path's shape is fixed while the name varies.
pub fn generate_image_path(doc_path: &str, extension: &str) -> (r: String)
    ensures
        exists|u: Seq<char>|
            u.len() == 36 && #[trigger] uuid_chars(u) && r@ == image_path_model(
                doc_path@,
                extension@,
                u,
            ),
{
    let file_name = fresh_uuid_string();
    let r = assemble_image_path(doc_path, extension, file_name.as_str());
    proof {
        assert(file_name@.len() == 36 && uuid_chars(file_name@) && r@ == image_path_model(
            doc_path@,
            extension@,
            file_name@,
        ));
    }
    r
}

} // verus!

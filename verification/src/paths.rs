//! The parts of a file path, which the platform's path rules decide.
use vstd::prelude::*;

verus! {

/// The text after the last `/` of `path`: all of it where it has no `/`.
pub open spec fn last_part(path: Seq<char>) -> Seq<char>
    decreases path.len(),
{
    if path.len() == 0 {
        Seq::empty()
    } else if path.last() == '/' {
        Seq::empty()
    } else {
        last_part(path.drop_last()).push(path.last())
    }
}

/// Whether `path` splits alike on every platform: it holds no `\` and no `:` (no Windows
/// separator or prefix) and does not start with `//`. Its components are then its parts
/// between `/`.
pub open spec fn portable_path(path: Seq<char>) -> bool {
    &&& forall|i: int| 0 <= i < path.len() ==> #[trigger] path[i] != '\\' && path[i] != ':'
    &&& !(path.len() >= 2 && path[0] == '/' && path[1] == '/')
}

/// Whether `path` is a portable path whose last component is `..`.
pub open spec fn ends_in_parent(path: Seq<char>) -> bool {
    portable_path(path) && last_part(path) == ".."@
}

/// Whether `path` is a portable path that ends in a name other than `.` and `..`: its last
/// component is then that name.
pub open spec fn plain_path(path: Seq<char>) -> bool {
    &&& portable_path(path)
    &&& last_part(path).len() > 0
    &&& last_part(path) != "."@
    &&& last_part(path) != ".."@
}

/// The position of the last `.` of `name`, or -1 where it has none.
pub open spec fn last_dot(name: Seq<char>) -> int
    decreases name.len(),
{
    if name.len() == 0 {
        -1
    } else if name.last() == '.' {
        name.len() - 1
    } else {
        last_dot(name.drop_last())
    }
}

/// The extension of the file name `name`, as `Path::extension` documents it: none without
/// an embedded `.`, none for a name that starts with its only `.`, else the part after the
/// final `.`.
pub open spec fn name_extension(name: Seq<char>) -> Option<Seq<char>> {
    let d = last_dot(name);
    if d <= 0 {
        None
    } else {
        Some(name.subrange(d + 1, name.len() as int))
    }
}

/// Calls `Path::file_name` on `path` and converts the name with `to_string_lossy`; none
/// where the path ends without a name. How a path splits into components depends on the
/// platform; for a plain path (`plain_path`) every platform splits it at `/` alone, so the
/// name is the text after the last `/`, and a slice of a `str` converts unchanged. A portable
/// path whose last component is `..` has no name, as the documentation says. Of other paths
/// nothing is stated.
#[verifier::external_body]
pub(crate) fn file_name_part(path: &str) -> (r: Option<String>)
    ensures
        plain_path(path@) ==> match r {
            Some(n) => n@ == last_part(path@),
            None => false,
        },
        ends_in_parent(path@) ==> r is None,
{
    std::path::Path::new(path).file_name().map(|name| name.to_string_lossy().into_owned())
}

/// The file name of `path`, empty where it ends without one; for a plain path, the text
/// after its last `/`.
pub(crate) fn file_name_of(path: &str) -> (r: String)
    ensures
        plain_path(path@) ==> r@ == last_part(path@),
        ends_in_parent(path@) ==> r@.len() == 0,
{
    match file_name_part(path) {
        Some(name) => name,
        None => String::new(),
    }
}

/// Calls `Path::extension` on `path` and converts it with `to_str`, none where the path has
/// no extension or it is not Unicode. For a plain path (`plain_path`) the file name is the
/// text after the last `/` on every platform, and the extension is taken from it as the
/// documentation of `Path::extension` says (`name_extension`). Of other paths nothing is
/// stated.
#[verifier::external_body]
pub(crate) fn path_extension(path: &str) -> (r: Option<String>)
    ensures
        plain_path(path@) ==> match r {
            Some(e) => name_extension(last_part(path@)) == Some(e@),
            None => name_extension(last_part(path@)) is None,
        },
{
    std::path::Path::new(path).extension().and_then(|ext| ext.to_str()).map(|ext| ext.to_owned())
}

/// The name under which a table is shown: its file name and sheet name.
pub open spec fn display_text(file: Seq<char>, sheet: Seq<char>) -> Seq<char> {
    file + "  /  "@ + sheet
}

/// The name under which a table with file name `file` and sheet `sheet` is shown.
pub fn display_name_of(file: &str, sheet: &str) -> (r: String)
    ensures
        r@ == display_text(file@, sheet@),
{
    let mut m = crate::text::chars_of(file);
    crate::text::push_str(&mut m, "  /  ");
    crate::text::push_str(&mut m, sheet);
    crate::text::string_of(m.as_slice())
}

} // verus!

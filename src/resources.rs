//! Where the downloadable resources live, and whether they are there.
use vstd::prelude::*;

verus! {

/// The path `seg` under `base`, as `Path::join` forms it.
pub uninterp spec fn joined(base: Seq<char>, seg: Seq<char>) -> Seq<char>;

/// Relies on `dirs::data_local_dir`: the user's local data directory, where
/// the platform has one. It depends on the environment.
#[verifier::external_body]
fn data_local_dir() -> (r: Option<String>) {
    dirs::data_local_dir().map(|p| p.to_string_lossy().into_owned())
}

/// Relies on `Path::join`.
#[verifier::external_body]
fn join_path(base: &str, seg: &str) -> (r: String)
    ensures
        r@ == joined(base@, seg@),
{
    std::path::Path::new(base).join(seg).to_string_lossy().into_owned()
}

/// Relies on `Path::exists`: whether something is on disk at the path now.
#[verifier::external_body]
fn path_exists(p: &str) -> (r: bool) {
    std::path::Path::new(p).exists()
}

pub open spec fn lexis() -> Seq<char> {
    seq!['l', 'e', 'x', 'i', 's']
}

pub open spec fn resources_name() -> Seq<char> {
    seq!['r', 'e', 's', 'o', 'u', 'r', 'c', 'e', 's']
}

pub open spec fn gliner_name() -> Seq<char> {
    seq!['g', 'l', 'i', 'n', 'e', 'r']
}

pub open spec fn symspell_name() -> Seq<char> {
    seq!['s', 'y', 'm', 's', 'p', 'e', 'l', 'l']
}

/// The resource directory under a data directory, or under `.` where
/// there is none.
pub open spec fn resource_dir_of(base: Option<Seq<char>>) -> Seq<char> {
    let b = match base {
        Some(b) => b,
        None => seq!['.'],
    };
    joined(joined(b, lexis()), resources_name())
}

/// The resource directory under the data directory `base` (`.` for none).
pub fn resource_dir_in(base: Option<String>) -> (r: String)
    ensures
        r@ == resource_dir_of(
            match base {
                Some(b) => Some(b@),
                None => None,
            },
        ),
{
    proof {
        reveal_strlit(".");
        reveal_strlit("lexis");
        reveal_strlit("resources");
        assert("lexis"@ =~= lexis());
        assert("resources"@ =~= resources_name());
        assert("."@ =~= seq!['.']);
    }
    let b = match base {
        Some(b) => b,
        None => ".".to_owned(),
    };
    let l = join_path(b.as_str(), "lexis");
    join_path(l.as_str(), "resources")
}

/// The base resource directory.
pub fn get_resource_dir() -> (r: String)
    ensures
        exists|b: Option<Seq<char>>| r@ == resource_dir_of(b),
{
    let base = data_local_dir();
    let ghost b = match &base {
        Some(s) => Some(s@),
        None => None,
    };
    let r = resource_dir_in(base);
    assert(r@ == resource_dir_of(b));
    r
}

/// The entity model's directory.
pub fn get_gliner_dir() -> (r: String)
    ensures
        exists|b: Option<Seq<char>>| r@ == joined(resource_dir_of(b), gliner_name()),
{
    proof {
        reveal_strlit("gliner");
        assert("gliner"@ =~= gliner_name());
    }
    let d = get_resource_dir();
    let ghost b = choose|b: Option<Seq<char>>| d@ == resource_dir_of(b);
    let r = join_path(d.as_str(), "gliner");
    assert(r@ == joined(resource_dir_of(b), gliner_name()));
    r
}

/// The segmentation dictionary's directory.
pub fn get_symspell_dir() -> (r: String)
    ensures
        exists|b: Option<Seq<char>>| r@ == joined(resource_dir_of(b), symspell_name()),
{
    proof {
        reveal_strlit("symspell");
        assert("symspell"@ =~= symspell_name());
    }
    let d = get_resource_dir();
    let ghost b = choose|b: Option<Seq<char>>| d@ == resource_dir_of(b);
    let r = join_path(d.as_str(), "symspell");
    assert(r@ == joined(resource_dir_of(b), symspell_name()));
    r
}

/// The name of the segmentation dictionary's file.
pub open spec fn symspell_file_name() -> Seq<char> {
    "frequency_dictionary_en_82_765.txt"@
}

/// The segmentation dictionary's file.
pub fn symspell_dict_path() -> (r: String)
    ensures
        exists|b: Option<Seq<char>>| r@ == joined(joined(resource_dir_of(b), symspell_name()), symspell_file_name()),
{
    let d = get_symspell_dir();
    let ghost b = choose|b: Option<Seq<char>>| d@ == joined(resource_dir_of(b), symspell_name());
    let r = join_path(d.as_str(), "frequency_dictionary_en_82_765.txt");
    assert(r@ == joined(joined(resource_dir_of(b), symspell_name()), symspell_file_name()));
    r
}

/// The entity model's files: its weights and its tokenizer.
pub fn gliner_files() -> (r: (String, String))
    ensures
        exists|b: Option<Seq<char>>|
            r.0@ == joined(joined(resource_dir_of(b), gliner_name()), "model.onnx"@) && r.1@
                == joined(joined(resource_dir_of(b), gliner_name()), "tokenizer.json"@),
{
    let d = get_gliner_dir();
    let ghost b = choose|b: Option<Seq<char>>| d@ == joined(resource_dir_of(b), gliner_name());
    let m = join_path(d.as_str(), "model.onnx");
    let t = join_path(d.as_str(), "tokenizer.json");
    assert(m@ == joined(joined(resource_dir_of(b), gliner_name()), "model.onnx"@));
    (m, t)
}

/// Whether both of the entity model's files, as `gliner_files` gives them,
/// are on disk now.
pub fn is_gliner_available() -> (r: bool) {
    let (m, t) = gliner_files();
    path_exists(m.as_str()) && path_exists(t.as_str())
}

/// Whether the segmentation dictionary is on disk.
pub fn is_symspell_available() -> (r: bool) {
    let p = symspell_dict_path();
    path_exists(p.as_str())
}

/// The state of a resource download.
pub enum DownloadStatus {
    AlreadyExists,
    Downloading { file: String, progress: u64, total: u64 },
    Completed,
    Failed(String),
}

/// Where each resource is and whether it is there.
pub struct ResourceStatus {
    pub gliner_available: bool,
    pub gliner_path: String,
    pub symspell_available: bool,
    pub symspell_path: String,
}

/// The state of all resources.
pub fn get_resource_status() -> (r: ResourceStatus)
    ensures
        exists|b: Option<Seq<char>>| r.gliner_path@ == joined(resource_dir_of(b), gliner_name()),
        exists|b: Option<Seq<char>>|
            r.symspell_path@ == joined(joined(resource_dir_of(b), symspell_name()), symspell_file_name()),
{
    ResourceStatus {
        gliner_available: is_gliner_available(),
        gliner_path: get_gliner_dir(),
        symspell_available: is_symspell_available(),
        symspell_path: symspell_dict_path(),
    }
}

} // verus!

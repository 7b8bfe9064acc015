//! Where golden snapshots, actual renders and diff overlays are stored.
//!
//! Paths are `/`-separated text. Joining follows the rule of Unix paths: an
//! absolute part replaces the base, an empty base gives the part, and
//! otherwise a separator goes between the two unless the base ends with one.
use vstd::prelude::*;
use crate::text_util::{chars_to_string, str_to_chars};

verus! {

broadcast use vstd::string::group_string_axioms;

/// `part` joined onto `base`.
pub open spec fn join_path(base: Seq<char>, part: Seq<char>) -> Seq<char> {
    if part.len() > 0 && part[0] == '/' {
        part
    } else if base.len() == 0 {
        part
    } else if base.last() == '/' {
        base + part
    } else {
        base + seq!['/'] + part
    }
}

fn join_chars(base: &Vec<char>, part: &Vec<char>) -> (r: Vec<char>)
    ensures
        r@ == join_path(base@, part@),
{
    if part.len() > 0 && part[0] == '/' {
        return part.clone();
    }
    let mut r = base.clone();
    if base.len() > 0 && base[base.len() - 1] != '/' {
        r.push('/');
    }
    let mut tail = part.clone();
    r.append(&mut tail);
    r
}

/// The path of `part` under the directory `base`.
pub fn join(base: &str, part: &str) -> (r: String)
    ensures
        r@ == join_path(base@, part@),
{
    let b = str_to_chars(base);
    let p = str_to_chars(part);
    let j = join_chars(&b, &p);
    chars_to_string(&j)
}

/// The file name of the image of snapshot `name`.
pub open spec fn image_file(name: Seq<char>) -> Seq<char> {
    name + ".png"@
}

/// Manages golden reference images under a base directory: references in
/// `golden/`, current renders in `actual/` and diff overlays in `diff/`.
pub struct SnapshotManager {
    golden_dir: String,
    actual_dir: String,
    diff_dir: String,
}

impl SnapshotManager {
    pub closed spec fn golden_dir(&self) -> Seq<char> {
        self.golden_dir@
    }

    pub closed spec fn actual_dir(&self) -> Seq<char> {
        self.actual_dir@
    }

    pub closed spec fn diff_dir(&self) -> Seq<char> {
        self.diff_dir@
    }

    /// A manager rooted at `base_dir`; directories are made when first written.
    pub fn new(base_dir: &str) -> (m: Self)
        ensures
            m.golden_dir() == join_path(base_dir@, "golden"@),
            m.actual_dir() == join_path(base_dir@, "actual"@),
            m.diff_dir() == join_path(base_dir@, "diff"@),
    {
        SnapshotManager {
            golden_dir: join(base_dir, "golden"),
            actual_dir: join(base_dir, "actual"),
            diff_dir: join(base_dir, "diff"),
        }
    }

    fn image_in(dir: &String, name: &str) -> (r: String)
        ensures
            r@ == join_path(dir@, image_file(name@)),
    {
        let mut file = str_to_chars(name);
        let mut ext = str_to_chars(".png");
        file.append(&mut ext);
        let d = str_to_chars(dir.as_str());
        let j = join_chars(&d, &file);
        chars_to_string(&j)
    }

    /// The path of the golden image of snapshot `name`.
    pub fn golden_path(&self, name: &str) -> (p: String)
        ensures
            p@ == join_path(self.golden_dir(), image_file(name@)),
    {
        Self::image_in(&self.golden_dir, name)
    }

    /// The path where the current render of snapshot `name` is kept.
    pub fn actual_path(&self, name: &str) -> (p: String)
        ensures
            p@ == join_path(self.actual_dir(), image_file(name@)),
    {
        Self::image_in(&self.actual_dir, name)
    }

    /// The path of the diff overlay of snapshot `name`.
    pub fn diff_path(&self, name: &str) -> (p: String)
        ensures
            p@ == join_path(self.diff_dir(), image_file(name@)),
    {
        Self::image_in(&self.diff_dir, name)
    }

    /// The directory of golden images.
    pub fn golden_directory(&self) -> (d: &str)
        ensures
            d@ == self.golden_dir(),
    {
        self.golden_dir.as_str()
    }

    /// The directory of current renders.
    pub fn actual_directory(&self) -> (d: &str)
        ensures
            d@ == self.actual_dir(),
    {
        self.actual_dir.as_str()
    }

    /// The directory of diff overlays.
    pub fn diff_directory(&self) -> (d: &str)
        ensures
            d@ == self.diff_dir(),
    {
        self.diff_dir.as_str()
    }
}

} // verus!

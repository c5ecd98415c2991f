//! Named locations on disk ("aliases") of the configuration.
use vstd::prelude::*;

use crate::path::{join, join_chars};
use crate::text::{chars_of, string_of};

verus! {

/// A named location: `path` is `root` with `add` appended. The default
/// extension and the caption are kept for tools and not read here.
pub struct FSPath {
    path: String,
    root: String,
    add: Option<String>,
    def_ext: Option<String>,
    filter_caption: Option<String>,
    recurse: bool,
    notify: bool,
}

/// The path of a location whose root is `root`, with `add` below it.
pub open spec fn location(root: Seq<char>, add: Option<Seq<char>>) -> Seq<char> {
    match add {
        Some(a) => join(root, a),
        None => root,
    }
}

impl FSPath {
    pub closed spec fn spec_path(&self) -> Seq<char> {
        self.path@
    }

    pub closed spec fn spec_root(&self) -> Seq<char> {
        self.root@
    }

    pub closed spec fn spec_recurse(&self) -> bool {
        self.recurse
    }

    pub closed spec fn spec_notify(&self) -> bool {
        self.notify
    }

    pub fn new(
        root: String,
        add: Option<String>,
        def_ext: Option<String>,
        filter_caption: Option<String>,
        recurse: bool,
        notify: bool,
    ) -> (r: FSPath)
        ensures
            r.spec_path() == location(
                root@,
                match add {
                    Some(a) => Some(a@),
                    None => None,
                },
            ),
            r.spec_root() == root@,
            r.spec_recurse() == recurse,
            r.spec_notify() == notify,
    {
        let path = match &add {
            Some(a) => {
                let joined = join_chars(chars_of(root.as_str()).as_slice(), chars_of(a.as_str()).as_slice());
                string_of(joined.as_slice())
            },
            None => root.clone(),
        };
        FSPath { path, root, add, def_ext, filter_caption, recurse, notify }
    }

    pub fn path(&self) -> (r: &String)
        ensures
            r@ == self.spec_path(),
    {
        &self.path
    }

    pub fn root(&self) -> (r: &String)
        ensures
            r@ == self.spec_root(),
    {
        &self.root
    }

    pub fn recurse(&self) -> (r: bool)
        ensures
            r == self.spec_recurse(),
    {
        self.recurse
    }

    pub fn notify(&self) -> (r: bool)
        ensures
            r == self.spec_notify(),
    {
        self.notify
    }

    /// This location's path with `to_append` appended.
    pub fn appended(&self, to_append: &str) -> (r: String)
        ensures
            r@ == join(self.spec_path(), to_append@),
    {
        let joined = join_chars(chars_of(self.path.as_str()).as_slice(), chars_of(to_append).as_slice());
        string_of(joined.as_slice())
    }
}

impl Default for FSPath {
    fn default() -> (r: FSPath)
        ensures
            r.spec_path() == Seq::<char>::empty(),
            r.spec_root() == Seq::<char>::empty(),
            !r.spec_recurse(),
            !r.spec_notify(),
    {
        FSPath::new(String::new(), None, None, None, false, false)
    }
}

} // verus!

//! Archives, the virtual files they and the disk provide, and the outside
//! parsers that archive headers go through.
use vstd::prelude::*;
use vstd::utf8::{decode_utf8, valid_utf8};

use ini::{Ini, ParseError};

verus! {

#[verifier::external_type_specification]
#[verifier::external_body]
pub struct ExIni(Ini);

#[verifier::external_type_specification]
#[verifier::external_body]
pub struct ExParseError(ParseError);

/// What `Ini::get_from` finds in a parsed INI document: for a section name
/// and a key, the first value of that key in the first section of that name.
pub uninterp spec fn ini_values(ini: Ini) -> Map<(Seq<char>, Seq<char>), Seq<char>>;

/// The values of the INI text `text` as `Ini::load_from_str_noescape`
/// reads it, or `None` where it rejects the text.
pub uninterp spec fn ini_parse(text: Seq<char>) -> Option<Map<(Seq<char>, Seq<char>), Seq<char>>>;

/// Relies on `ini::Ini::load_from_str_noescape`: parses INI text, taking
/// backslashes literally; the outcome depends on the text alone.
#[verifier::external_body]
pub(crate) fn parse_ini(text: &str) -> (r: Result<Ini, ParseError>)
    ensures
        match r {
            Ok(ini) => ini_parse(text@) == Some(ini_values(ini)),
            Err(_) => ini_parse(text@) is None,
        },
{
    Ini::load_from_str_noescape(text)
}

/// Relies on `ini::Ini::get_from`: the value of `key` in section `section`.
#[verifier::external_body]
pub(crate) fn ini_get(ini: &Ini, section: &str, key: &str) -> (r: Option<String>)
    ensures
        match r {
            Some(v) => ini_values(*ini).contains_key((section@, key@)) && ini_values(*ini)[(
                section@,
                key@,
            )] == v@,
            None => !ini_values(*ini).contains_key((section@, key@)),
        },
{
    ini.get_from(Some(section), key).map(|v| v.to_string())
}

/// Relies on `String::from_utf8`: succeeds exactly on valid UTF-8, with the
/// characters that the bytes encode.
#[verifier::external_body]
pub(crate) fn utf8_string(bytes: Vec<u8>) -> (r: Option<String>)
    ensures
        match r {
            Some(s) => valid_utf8(bytes@) && s@ == decode_utf8(bytes@),
            None => !valid_utf8(bytes@),
        },
{
    String::from_utf8(bytes).ok()
}

/// A readable path, on disk or inside an archive: its virtual path, the
/// index of the archive that holds it, and for archive members the sizes
/// and offset of its data.
pub struct VirtualFile {
    name: String,
    archive: Option<usize>,
    size_real: usize,
    size_compressed: usize,
    ptr: usize,
}

/// A virtual file with its path as a sequence.
pub struct VirtualFileView {
    pub name: Seq<char>,
    pub archive: Option<usize>,
    pub size_real: usize,
    pub size_compressed: usize,
    pub ptr: usize,
}

impl View for VirtualFile {
    type V = VirtualFileView;

    closed spec fn view(&self) -> VirtualFileView {
        VirtualFileView {
            name: self.name@,
            archive: self.archive,
            size_real: self.size_real,
            size_compressed: self.size_compressed,
            ptr: self.ptr,
        }
    }
}

impl VirtualFile {
    pub fn new(
        name: String,
        archive: Option<usize>,
        size_real: usize,
        size_compressed: usize,
        ptr: usize,
    ) -> (r: VirtualFile)
        ensures
            r@ == (VirtualFileView { name: name@, archive, size_real, size_compressed, ptr }),
    {
        VirtualFile { name, archive, size_real, size_compressed, ptr }
    }

    /// A directory entry: a path with no archive, sizes or offset.
    pub fn only_name(name: String) -> (r: VirtualFile)
        ensures
            r@ == (VirtualFileView {
                name: name@,
                archive: None,
                size_real: 0,
                size_compressed: 0,
                ptr: 0,
            }),
    {
        VirtualFile::new(name, None, 0, 0, 0)
    }

    pub fn name(&self) -> (r: &String)
        ensures
            r@ == self@.name,
    {
        &self.name
    }

    pub fn archive(&self) -> (r: Option<usize>)
        ensures
            r == self@.archive,
    {
        self.archive
    }

    pub fn size_real(&self) -> (r: usize)
        ensures
            r == self@.size_real,
    {
        self.size_real
    }

    pub fn size_compressed(&self) -> (r: usize)
        ensures
            r == self@.size_compressed,
    {
        self.size_compressed
    }

    pub fn ptr(&self) -> (r: usize)
        ensures
            r == self@.ptr,
    {
        self.ptr
    }
}

/// An archive found during the scan: its canonical path, its index, its
/// parsed header where it has one, and its size in bytes.
pub struct Archive {
    path: String,
    index: usize,
    header: Option<Ini>,
    size: usize,
}

impl Archive {
    pub closed spec fn spec_path(&self) -> Seq<char> {
        self.path@
    }

    pub closed spec fn spec_index(&self) -> usize {
        self.index
    }

    pub closed spec fn spec_size(&self) -> usize {
        self.size
    }

    pub closed spec fn spec_header(&self) -> Option<Ini> {
        self.header
    }

    /// An archive with no header yet.
    pub fn new(path: String, index: usize, size: usize) -> (r: Archive)
        ensures
            r.spec_path() == path@,
            r.spec_index() == index,
            r.spec_size() == size,
            r.spec_header() is None,
    {
        Archive { path, index, header: None, size }
    }

    pub fn path(&self) -> (r: &String)
        ensures
            r@ == self.spec_path(),
    {
        &self.path
    }

    pub fn index(&self) -> (r: usize)
        ensures
            r == self.spec_index(),
    {
        self.index
    }

    pub fn header(&self) -> (r: Option<&Ini>)
        ensures
            match r {
                Some(h) => self.spec_header() == Some(*h),
                None => self.spec_header() is None,
            },
    {
        match &self.header {
            Some(h) => Some(h),
            None => None,
        }
    }

    pub fn set_header(&mut self, header: Ini)
        ensures
            final(self).spec_header() == Some(header),
            final(self).spec_path() == old(self).spec_path(),
            final(self).spec_index() == old(self).spec_index(),
            final(self).spec_size() == old(self).spec_size(),
    {
        self.header = Some(header);
    }

    pub fn size(&self) -> (r: usize)
        ensures
            r == self.spec_size(),
    {
        self.size
    }
}

} // verus!

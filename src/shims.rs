//! What a launcher learns from its own name.

use vstd::prelude::*;
use vstd::string::{StringExecFns, StringSliceAdditionalSpecFns};
use vstd::utf8::{
    encode_utf8,
    encode_utf8_valid_utf8,
    is_char_boundary_iff_not_is_continuation_byte,
    is_char_boundary_start_end_of_seq,
};

use crate::tags::{Tag, lemma_tag_bytes, tag_len, tag_of, tag_text};

verus! {

/// `b` without the tag at its end: the command name.
pub open spec fn command_part(b: Seq<u8>) -> Seq<u8> {
    b.subrange(0, b.len() - tag_len(b))
}

/// A file name without its `.exe` extension. A name that is only `.exe`
/// has no extension.
pub open spec fn without_exe(f: Seq<u8>) -> Seq<u8> {
    if f.len() > 4 && f.subrange(f.len() - 4, f.len() as int) == seq![46u8, 101u8, 120u8, 101u8] {
        f.subrange(0, f.len() - 4)
    } else {
        f
    }
}

/// What a launcher knows of itself: the command it stands for and the tag
/// in its name.
pub struct Shim {
    name: String,
    tag: Tag,
}

impl Shim {
    /// The command name.
    pub closed spec fn spec_name(&self) -> Seq<char> {
        self.name@
    }

    /// The tag in the launcher's name.
    pub closed spec fn spec_tag(&self) -> Tag {
        self.tag
    }

    /// Splits a launcher's name into command name and tag:
    /// `python3.5-32` is the command `python` with the tag `3.5-32`.
    pub fn from_name(name: &str) -> (r: Shim)
        ensures
            encode_utf8(r.spec_name()) == command_part(name.spec_bytes()),
            r.spec_tag() == tag_of(name.spec_bytes()),
    {
        let (tag, len) = Tag::parse(name);
        let n = name.as_bytes().len();
        let ghost b = name.spec_bytes();
        proof {
            lemma_tag_bytes(b);
            encode_utf8_valid_utf8(name@);
            if n - len < n {
                is_char_boundary_iff_not_is_continuation_byte(b, n - len);
            } else {
                is_char_boundary_start_end_of_seq(b);
            }
        }
        let (command, _) = name.split_at(n - len);
        Shim { name: command.to_owned(), tag }
    }

    /// The launcher of the executable file `file_name`: its `.exe`
    /// extension, if any, is left out.
    pub fn from_file_name(file_name: &str) -> (r: Shim)
        ensures
            encode_utf8(r.spec_name()) == command_part(without_exe(file_name.spec_bytes())),
            r.spec_tag() == tag_of(without_exe(file_name.spec_bytes())),
    {
        let b = file_name.as_bytes();
        let n = b.len();
        let exe = n > 4 && b[n - 4] == 46 && b[n - 3] == 101 && b[n - 2] == 120 && b[n - 1] == 101;
        if exe {
            proof {
                encode_utf8_valid_utf8(file_name@);
                is_char_boundary_iff_not_is_continuation_byte(b@, n - 4);
                assert(b@.subrange(n - 4, n as int) =~= seq![46u8, 101u8, 120u8, 101u8]);
            }
            let (stem, _) = file_name.split_at(n - 4);
            assert(stem.spec_bytes() =~= without_exe(b@));
            Shim::from_name(stem)
        } else {
            proof {
                if n > 4 {
                    let tail = b@.subrange(n - 4, n as int);
                    if tail == seq![46u8, 101u8, 120u8, 101u8] {
                        assert(tail[0] == b@[n - 4]);
                        assert(tail[1] == b@[n - 3]);
                        assert(tail[2] == b@[n - 2]);
                        assert(tail[3] == b@[n - 1]);
                    }
                }
            }
            Shim::from_name(file_name)
        }
    }

    /// The command name.
    pub fn name(&self) -> (r: &str)
        ensures
            r@ == self.spec_name(),
    {
        self.name.as_str()
    }

    /// The tag in the launcher's name.
    pub fn tag(&self) -> (r: &Tag)
        ensures
            *r == self.spec_tag(),
    {
        &self.tag
    }

    /// The command name, followed by a space and the tag where the tag
    /// names a version.
    pub fn to_string(&self) -> (r: String)
        ensures
            self.spec_tag().major.is_none() ==> r@ == self.spec_name(),
            self.spec_tag().major.is_some() ==> r@ == self.spec_name() + seq![' '] + tag_text(
                self.spec_tag(),
            ),
    {
        let mut s = String::new();
        s.append(self.name.as_str());
        if !self.tag.is_wildcard() {
            s.append(" ");
            s.append(self.tag.to_string().as_str());
        }
        proof {
            reveal_strlit(" ");
        }
        s
    }
}

} // verus!

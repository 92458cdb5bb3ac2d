use safetensors::tensor::SafeTensorError;
use vstd::prelude::*;
use vstd::string::*;

use crate::text;
use crate::text::{lower_text, same_text};

verus! {

/// Alignment of unbuffered reads.
pub const DIRECT_ALIGN: usize = 4096;

/// Bytes per unbuffered read.
pub const DIRECT_CHUNK: usize = 2097152;

/// Bytes of a shard that are read to find its header.
pub const HEADER_READ_MAX: usize = 262144;

/// How weights get from disk to the device.
#[derive(Debug, Clone, Copy, PartialEq, Eq, Structural)]
pub enum LoaderKind {
    Read,
    Mmap,
    Direct,
    Gds,
}

/// The errors of the file format.
#[verifier::external_type_specification]
#[verifier::external_body]
pub struct ExSafeTensorError(safetensors::tensor::SafeTensorError);

/// Why weights cannot be loaded.
#[derive(Debug)]
pub enum LoadError {
    /// No loader has this name.
    UnknownLoader(String),
    /// A directory holds no shard.
    NoShards,
    /// A file gave fewer bytes than it should have.
    Incomplete { got: usize, expected: usize },
    /// A shard is too short to hold a header.
    HeaderTooShort { have: usize },
    /// A shard's header is longer than what was read.
    HeaderTruncated { header_len: u64, have: usize },
    /// A part of a shard ends further away than bytes can be counted.
    EndTooFar,
    /// A shard is not in the expected format.
    Malformed(SafeTensorError),
}

/// The loader that a name, in lower case, stands for.
pub open spec fn loader_named(name: Seq<char>) -> Option<LoaderKind> {
    if name == "read"@ {
        Some(LoaderKind::Read)
    } else if name == "mmap"@ {
        Some(LoaderKind::Mmap)
    } else if name == "direct"@ || name == "o_direct"@ {
        Some(LoaderKind::Direct)
    } else if name == "gds"@ || name == "cufile"@ {
        Some(LoaderKind::Gds)
    } else {
        None
    }
}

impl LoaderKind {
    /// The loader of a given name; case does not matter.
    pub fn parse(s: &str) -> (r: Result<Self, LoadError>)
        ensures
            match r {
                Ok(k) => loader_named(text::lower(s@)) == Some(k),
                Err(e) => {
                    &&& loader_named(text::lower(s@)) is None
                    &&& e matches LoadError::UnknownLoader(n)
                    &&& n@ == text::lower(s@)
                },
            },
    {
        let name: String = lower_text(s);
        let n: &str = name.as_str();
        if same_text(n, "read") {
            Ok(LoaderKind::Read)
        } else if same_text(n, "mmap") {
            Ok(LoaderKind::Mmap)
        } else if same_text(n, "direct") || same_text(n, "o_direct") {
            Ok(LoaderKind::Direct)
        } else if same_text(n, "gds") || same_text(n, "cufile") {
            Ok(LoaderKind::Gds)
        } else {
            Err(LoadError::UnknownLoader(name))
        }
    }

    /// The loader's name.
    pub open spec fn name(self) -> Seq<char> {
        match self {
            LoaderKind::Read => "read"@,
            LoaderKind::Mmap => "mmap"@,
            LoaderKind::Direct => "direct"@,
            LoaderKind::Gds => "gds"@,
        }
    }

    /// The loader's name.
    pub fn as_str(&self) -> (r: &'static str)
        ensures
            r@ == self.name(),
    {
        match self {
            LoaderKind::Read => "read",
            LoaderKind::Mmap => "mmap",
            LoaderKind::Direct => "direct",
            LoaderKind::Gds => "gds",
        }
    }
}

/// A loader's name, in any case, stands for the loader.
pub proof fn law_name_stands_for_loader(kind: LoaderKind, s: Seq<char>)
    requires
        text::lower(s) == kind.name(),
    ensures
        loader_named(text::lower(s)) == Some(kind),
{
    reveal_strlit("read");
    reveal_strlit("mmap");
    reveal_strlit("direct");
    reveal_strlit("o_direct");
    reveal_strlit("gds");
    assert("mmap"@[0] != "read"@[0]);
    assert("direct"@.len() != "read"@.len());
    assert("gds"@.len() != "read"@.len());
    assert("gds"@.len() != "direct"@.len());
    assert("gds"@.len() != "o_direct"@.len());
}

} // verus!

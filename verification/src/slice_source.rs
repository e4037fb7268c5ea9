//! What a slicing run reads and leaves next to its output.

use crate::hash::fnv1a;
use crate::hash::fnv_spec;
use crate::names::begins_with;
use crate::names::has_head;
use crate::names::same_text;
use crate::numtext::hex;
use crate::numtext::push_hex;
use crate::slice_roles::Arch;
use crate::text::push_text;
use crate::unicode::chars_of;
use vstd::prelude::*;

verus! {

/// What a model is read from.
#[derive(Debug, Clone, Copy, PartialEq, Eq, Structural)]
pub enum SourceKind {
    /// A checkpoint.
    Bin,
    /// Tensor files, here or at an address.
    Tensors,
}

/// A model is named by an address.
pub open spec fn is_address(model: Seq<char>) -> bool {
    begins_with(model, "http://"@) || begins_with(model, "https://"@)
}

/// Whether a model is named by an address.
pub fn is_remote(model: &str) -> (yes: bool)
    ensures
        yes == is_address(model@),
{
    let t: Vec<char> = chars_of(model);
    has_head(t.as_slice(), "http://") || has_head(t.as_slice(), "https://")
}

/// The first bytes of a checkpoint.
pub open spec fn begins_checkpoint(head: Seq<u8>) -> bool {
    head.len() >= 8 && head[0] == 0x4d && head[1] == 0x4b && head[2] == 0x49 && head[3] == 0x4d
}

/// What a model is read from: an address and a directory hold tensor files, and the first
/// eight bytes of a file tell. Nothing for a file that is shorter.
pub fn source_kind(model: &str, is_dir: bool, head: &[u8]) -> (kind: Option<SourceKind>)
    ensures
        kind == if is_address(model@) || is_dir {
            Some(SourceKind::Tensors)
        } else if head@.len() < 8 {
            None
        } else if begins_checkpoint(head@) {
            Some(SourceKind::Bin)
        } else {
            Some(SourceKind::Tensors)
        },
{
    if is_remote(model) || is_dir {
        return Some(SourceKind::Tensors);
    }
    if head.len() < 8 {
        return None;
    }
    if head[0] == 0x4d && head[1] == 0x4b && head[2] == 0x49 && head[3] == 0x4d {
        Some(SourceKind::Bin)
    } else {
        Some(SourceKind::Tensors)
    }
}

/// The role table of a model: a checkpoint says in its configuration that it is dense, of
/// tensor files it is known.
pub fn arch_of(kind: SourceKind, declared: Option<&str>, dense: bool) -> (arch: Arch)
    ensures
        arch == match kind {
            SourceKind::Bin => match declared {
                Some(a) => if a@ == "dense"@ {
                    Arch::Dense
                } else {
                    Arch::Micro
                },
                None => Arch::Micro,
            },
            SourceKind::Tensors => if dense {
                Arch::Dense
            } else {
                Arch::K3Real
            },
        },
{
    match kind {
        SourceKind::Bin => match declared {
            Some(a) => {
                let t: Vec<char> = chars_of(a);
                if same_text(t.as_slice(), "dense") {
                    Arch::Dense
                } else {
                    Arch::Micro
                }
            },
            None => Arch::Micro,
        },
        SourceKind::Tensors => if dense {
            Arch::Dense
        } else {
            Arch::K3Real
        },
    }
}

/// The checkpoint of a run stands next to its output.
pub fn resume_path(out: &str) -> (path: String)
    ensures
        path@ == out@ + ".sliceckpt"@,
{
    let mut p: String = String::new();
    push_text(&mut p, out);
    push_text(&mut p, ".sliceckpt");
    proof {
        assert(p@ =~= out@ + ".sliceckpt"@);
    }
    p
}

/// The directory of what a run caches.
pub fn cache_dir(out: &str) -> (path: String)
    ensures
        path@ == out@ + ".slicecache"@,
{
    let mut p: String = String::new();
    push_text(&mut p, out);
    push_text(&mut p, ".slicecache");
    proof {
        assert(p@ =~= out@ + ".slicecache"@);
    }
    p
}

/// The file in it that holds the expert scores of a model.
pub fn score_file(model: &str) -> (name: String)
    ensures
        name@ == "expert_scores."@ + hex(fnv_of(model@) as nat, 16) + ".bin"@,
{
    let mut p: String = String::new();
    push_text(&mut p, "expert_scores.");
    push_hex(&mut p, fnv1a(model), 16);
    push_text(&mut p, ".bin");
    proof {
        assert(p@ =~= "expert_scores."@ + hex(fnv_of(model@) as nat, 16) + ".bin"@);
    }
    p
}

/// The hash of a text.
pub open spec fn fnv_of(t: Seq<char>) -> u64 {
    fnv_spec(vstd::utf8::encode_utf8(t))
}

} // verus!

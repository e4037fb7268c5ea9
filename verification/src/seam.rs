//! The adapter that a checkpoint may carry: two low-rank matrices that patch the
//! residual stream behind one layer. Loading is strict: a half of it, or one that does
//! not fit the model, is an error.

use crate::directory::Directory;
use crate::weights::EntryView;
use crate::weights::DTYPE_F32;
use vstd::prelude::*;
use vstd::utf8::encode_utf8;

verus! {

/// What is wrong with an adapter.
#[derive(Debug, Clone, Copy, PartialEq, Eq, Structural)]
pub enum SeamError {
    /// The configuration places an adapter that the file does not have.
    NoTensors,
    MissingA,
    MissingB,
    /// The file has an adapter that the configuration does not place.
    NoPlace,
    /// No layer follows the one that it is placed behind.
    OutOfRange,
    TypeA,
    ShapeA,
    TypeB,
    ShapeB,
    /// The first matrix does not take the hidden width.
    WidthA,
    /// The second matrix does not give the hidden width from the rank.
    WidthB,
}

/// An adapter that fits the model.
#[derive(Debug, Clone, Copy, PartialEq, Eq, Structural)]
pub struct SeamW {
    /// The row of the first matrix in the directory.
    pub a: usize,
    /// The row of the second matrix.
    pub b: usize,
    pub rank: usize,
    /// The layer that it is placed behind.
    pub after: usize,
}

/// What is wrong with the tensors of an adapter of a model of width `d`.
pub open spec fn shape_fault(a: EntryView, b: EntryView, d: usize) -> Option<SeamError> {
    if a.dtype != DTYPE_F32 {
        Some(SeamError::TypeA)
    } else if a.dims.len() != 2 {
        Some(SeamError::ShapeA)
    } else if b.dtype != DTYPE_F32 {
        Some(SeamError::TypeB)
    } else if b.dims.len() != 2 {
        Some(SeamError::ShapeB)
    } else if a.dims[1] != d {
        Some(SeamError::WidthA)
    } else if b.dims[0] != d || b.dims[1] != a.dims[0] {
        Some(SeamError::WidthB)
    } else {
        None
    }
}

/// What is wrong with the adapter of a checkpoint, where it has one or places one.
pub open spec fn seam_fault(
    map: Map<Seq<u8>, EntryView>,
    after: Option<usize>,
    n_layers: usize,
    d: usize,
) -> Option<SeamError> {
    let a = encode_utf8("seam.A"@);
    let b = encode_utf8("seam.B"@);
    if !map.contains_key(a) && !map.contains_key(b) {
        if after is Some {
            Some(SeamError::NoTensors)
        } else {
            None
        }
    } else if !map.contains_key(a) {
        Some(SeamError::MissingA)
    } else if !map.contains_key(b) {
        Some(SeamError::MissingB)
    } else if after is None {
        Some(SeamError::NoPlace)
    } else if after->Some_0 + 1 >= n_layers {
        Some(SeamError::OutOfRange)
    } else {
        shape_fault(map[a], map[b], d)
    }
}

/// Reads the adapter of a checkpoint, if it has one.
pub fn seam_load(dir: &Directory, after: Option<usize>, n_layers: usize, d: usize) -> (r: Result<
    Option<SeamW>,
    SeamError,
>)
    requires
        dir.wf(),
    ensures
        ({
            let map = dir.map();
            let a = encode_utf8("seam.A"@);
            let b = encode_utf8("seam.B"@);
            match r {
                Err(e) => seam_fault(map, after, n_layers, d) == Some(e),
                Ok(None) => seam_fault(map, after, n_layers, d) is None && !map.contains_key(a)
                    && !map.contains_key(b),
                Ok(Some(s)) => {
                    &&& seam_fault(map, after, n_layers, d) is None
                    &&& map.contains_key(a) && map.contains_key(b)
                    &&& s.a < dir.list@.len() && dir.list@[s.a as int].1@ == map[a]
                    &&& s.b < dir.list@.len() && dir.list@[s.b as int].1@ == map[b]
                    &&& s.rank == map[a].dims[0]
                    &&& Some(s.after) == after
                },
            }
        }),
{
    let ra: Option<usize> = dir.find("seam.A");
    let rb: Option<usize> = dir.find("seam.B");
    if ra.is_none() && rb.is_none() {
        return if after.is_some() {
            Err(SeamError::NoTensors)
        } else {
            Ok(None)
        };
    }
    let ia: usize = match ra {
        Some(i) => i,
        None => {
            return Err(SeamError::MissingA);
        },
    };
    let ib: usize = match rb {
        Some(i) => i,
        None => {
            return Err(SeamError::MissingB);
        },
    };
    let place: usize = match after {
        Some(p) => p,
        None => {
            return Err(SeamError::NoPlace);
        },
    };
    if n_layers == 0 || place >= n_layers - 1 {
        return Err(SeamError::OutOfRange);
    }
    let ea: &crate::weights::Entry = &dir.list[ia].1;
    let eb: &crate::weights::Entry = &dir.list[ib].1;
    if ea.dtype != DTYPE_F32 {
        return Err(SeamError::TypeA);
    }
    if ea.dims.len() != 2 {
        return Err(SeamError::ShapeA);
    }
    if eb.dtype != DTYPE_F32 {
        return Err(SeamError::TypeB);
    }
    if eb.dims.len() != 2 {
        return Err(SeamError::ShapeB);
    }
    if ea.dims[1] as usize != d {
        return Err(SeamError::WidthA);
    }
    if eb.dims[0] as usize != d || eb.dims[1] != ea.dims[0] {
        return Err(SeamError::WidthB);
    }
    Ok(Some(SeamW { a: ia, b: ib, rank: ea.dims[0] as usize, after: place }))
}

/// An adapter that loads fits its place: a layer follows it, its first matrix takes the
/// hidden width to its rank and its second takes the rank back to the hidden width.
pub proof fn law_loaded_adapter_fits(
    map: Map<Seq<u8>, EntryView>,
    after: Option<usize>,
    n_layers: usize,
    d: usize,
)
    requires
        seam_fault(map, after, n_layers, d) is None,
    ensures
        ({
            let (a, b) = (encode_utf8("seam.A"@), encode_utf8("seam.B"@));
            &&& map.contains_key(a) == map.contains_key(b)
            &&& map.contains_key(a) == (after is Some)
            &&& map.contains_key(a) ==> {
                &&& after->Some_0 < n_layers - 1
                &&& map[a].dtype == DTYPE_F32 && map[b].dtype == DTYPE_F32
                &&& map[a].dims.len() == 2 && map[b].dims.len() == 2
                &&& map[a].dims[1] == d && map[b].dims[0] == d
                &&& map[a].dims[0] == map[b].dims[1]
            }
        }),
{
}

} // verus!

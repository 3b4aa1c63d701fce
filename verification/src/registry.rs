//! Registries and lookups across them.
use vstd::prelude::*;
use crate::index::{PackageEntry, PackageIndex};
use crate::text::chars_of;

verus! {

/// A loaded registry with its index.
#[derive(Debug)]
pub struct Registry {
    pub name: String,
    pub url: String,
    pub index: PackageIndex,
}

/// Why an index or a lookup in it was refused.
#[derive(Debug, PartialEq, Eq)]
pub enum IndexError {
    PackageNotFound { name: String },
    UnsupportedIndexVersion { version: u32 },
}

/// The first registry, from index `i` on, that lists `name`, or -1.
pub open spec fn first_registry_with(regs: Seq<Registry>, name: Seq<char>, i: int) -> int
    decreases regs.len() - i,
{
    if i < 0 || i >= regs.len() {
        -1
    } else if regs[i].index.lookup(name) is Some {
        i
    } else {
        first_registry_with(regs, name, i + 1)
    }
}

/// Finds a package in the first registry that lists it: its entry and the
/// registry's name, or `PackageNotFound` when no registry lists it.
pub fn resolve_package<'a>(name: &str, registries: &'a [Registry]) -> (r: Result<
    (&'a PackageEntry, &'a str),
    IndexError,
>)
    ensures
        match r {
            Ok((e, rn)) => {
                let i = first_registry_with(registries@, name@, 0);
                &&& 0 <= i < registries@.len()
                &&& registries@[i].index.lookup(name@) == Some(*e)
                &&& rn@ == registries@[i].name@
            },
            Err(err) => {
                &&& first_registry_with(registries@, name@, 0) == -1
                &&& err is PackageNotFound
                &&& err->PackageNotFound_name@ == name@
            },
        },
{
    let mut i: usize = 0;
    while i < registries.len()
        invariant
            i <= registries@.len(),
            first_registry_with(registries@, name@, 0) == first_registry_with(
                registries@,
                name@,
                i as int,
            ),
        decreases registries@.len() - i,
    {
        let reg = &registries[i];
        match reg.index.get(name) {
            Some(e) => {
                return Ok((e, reg.name.as_str()));
            },
            None => {},
        }
        i += 1;
    }
    Err(IndexError::PackageNotFound { name: name.to_owned() })
}

/// Accepts an index of format version 1; any other version is refused.
pub fn validate_index_version(index: PackageIndex) -> (r: Result<PackageIndex, IndexError>)
    ensures
        index.version == 1 ==> r == Ok::<PackageIndex, IndexError>(index),
        index.version != 1 ==> r == Err::<PackageIndex, IndexError>(
            IndexError::UnsupportedIndexVersion { version: index.version },
        ),
{
    if index.version != 1 {
        return Err(IndexError::UnsupportedIndexVersion { version: index.version });
    }
    Ok(index)
}

} // verus!

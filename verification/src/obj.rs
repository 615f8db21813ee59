use vstd::prelude::*;
use vstd::utf8::valid_utf8;
use vstd::string::StringSliceAdditionalSpecFns;
use crate::xref::{XRef, root_ok, root_key};
use crate::primitives::{Primitives, Obj, DictView, dict_get};

verus! {

/// The key `Version` of a catalog dictionary.
pub open spec fn version_key() -> Seq<u8> {
    seq![0x56u8, 0x65, 0x72, 0x73, 0x69, 0x6f, 0x6e]
}

/// The catalog dictionary of a trailer, where its `Root` entry is one.
pub open spec fn catalog_of(trailer: DictView) -> DictView {
    match dict_get(trailer, root_key()) {
        Some(Obj::Dict(d)) => d,
        _ => DictView { map: Map::empty(), obj_id: None },
    }
}

/// The version a catalog states, as the bytes of its name.
pub open spec fn catalog_version(catalog: DictView) -> Option<Seq<u8>> {
    match dict_get(catalog, version_key()) {
        Some(Obj::Name(n)) => Some(n),
        _ => None,
    }
}

fn version_bytes() -> (v: Vec<u8>)
    ensures
        v@ == version_key(),
{
    let mut v: Vec<u8> = Vec::new();
    v.push(0x56);
    v.push(0x65);
    v.push(0x72);
    v.push(0x73);
    v.push(0x69);
    v.push(0x6f);
    v.push(0x6e);
    assert(v@ == version_key());
    v
}

/// The document catalog, read through a cross-reference table.
pub struct Catalog<'a> {
    xref: &'a XRef<'a>,
}

impl<'a> Catalog<'a> {
    pub closed spec fn trailer(&self) -> DictView {
        self.xref.trailer()
    }

    pub fn new(xref: &'a XRef<'a>) -> (c: Self)
        ensures
            c.trailer() == xref.trailer(),
    {
        Catalog { xref: xref }
    }

    /// The PDF version the catalog states. The catalog must be present
    /// (see [`XRef::root`]) and a stated version must be UTF-8.
    pub fn version(&self) -> (v: Option<&str>)
        requires
            root_ok(self.trailer()),
            catalog_version(catalog_of(self.trailer())) matches Some(n) ==> valid_utf8(n),
        ensures
            match catalog_version(catalog_of(self.trailer())) {
                Some(n) => v matches Some(s) && s.spec_bytes() == n,
                None => v is None,
            },
    {
        let dict = self.xref.get_catalog_obj();
        let version_obj = dict.get(version_bytes().as_slice());
        if let Some(Primitives::Name(version)) = version_obj {
            Some(version.name())
        } else {
            None
        }
    }
}

} // verus!

//! The codegen context: what the emitter knows per definition.
//!
//! During emission every `DefId` that can appear in a `Path` is associated
//! with a target-language type and with a relative item path. The driver
//! builds one `CodegenCx` from the resolve result and passes it explicitly;
//! an ambient (thread-local) accessor around it is the driver's business, not
//! this crate's.
use vstd::prelude::*;

use crate::idmap::IdMap;
use crate::index::DefId;
use crate::rir::ItemPath;
use crate::ty::CodegenTy;

verus! {

/// Per-`DefId` emission facts: the codegen type and the relative item path.
#[derive(Debug)]
pub struct CodegenCx {
    tys: IdMap<CodegenTy>,
    paths: IdMap<ItemPath>,
}

impl CodegenCx {
    pub closed spec fn wf(&self) -> bool {
        self.tys.wf() && self.paths.wf()
    }

    /// The `DefId -> CodegenTy` association.
    pub closed spec fn tys_map(&self) -> Map<nat, CodegenTy> {
        self.tys@
    }

    /// The `DefId -> ItemPath` association.
    pub closed spec fn paths_map(&self) -> Map<nat, ItemPath> {
        self.paths@
    }

    pub fn new() -> (r: CodegenCx)
        ensures
            r.wf(),
            r.tys_map() == Map::<nat, CodegenTy>::empty(),
            r.paths_map() == Map::<nat, ItemPath>::empty(),
    {
        CodegenCx { tys: IdMap::new(), paths: IdMap::new() }
    }

    /// Associates a codegen type with a definition.
    pub fn define_ty(&mut self, did: DefId, ty: CodegenTy)
        requires
            old(self).wf(),
        ensures
            final(self).wf(),
            final(self).tys_map() == old(self).tys_map().insert(did.0 as nat, ty),
            final(self).paths_map() == old(self).paths_map(),
    {
        self.tys.insert(did.0, ty);
    }

    /// Associates a relative item path with a definition.
    pub fn define_path(&mut self, did: DefId, path: ItemPath)
        requires
            old(self).wf(),
        ensures
            final(self).wf(),
            final(self).paths_map() == old(self).paths_map().insert(did.0 as nat, path),
            final(self).tys_map() == old(self).tys_map(),
    {
        self.paths.insert(did.0, path);
    }

    /// The codegen type the emitter associates with `did`.
    pub fn codegen_ty(&self, did: DefId) -> (r: Option<&CodegenTy>)
        requires
            self.wf(),
        ensures
            match r {
                Some(t) => self.tys_map().contains_key(did.0 as nat) && self.tys_map()[did.0 as nat]
                    == *t,
                None => !self.tys_map().contains_key(did.0 as nat),
            },
    {
        self.tys.get(did.0)
    }

    /// The relative path under which `did`'s item is emitted.
    pub fn cur_related_item_path(&self, did: DefId) -> (r: Option<&ItemPath>)
        requires
            self.wf(),
        ensures
            match r {
                Some(p) => self.paths_map().contains_key(did.0 as nat) && self.paths_map()[did.0
                    as nat] == *p,
                None => !self.paths_map().contains_key(did.0 as nat),
            },
    {
        self.paths.get(did.0)
    }
}

} // verus!

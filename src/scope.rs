//! A scope identifier bound to the runtime it belongs to.
use vstd::prelude::*;

verus! {

/// Identifies a runtime.
#[derive(Clone, Copy, Debug, PartialEq, Eq, Structural)]
pub struct RuntimeId(pub u32);

/// A runtime, known here only by its identifier.
pub struct Runtime {
    pub id: RuntimeId,
}

impl Runtime {
    pub fn new(id: RuntimeId) -> (r: Self)
        ensures
            r.id == id,
    {
        Runtime { id }
    }
}

/// Identifies a scope within a runtime.
#[derive(Clone, Copy, Debug, PartialEq, Eq, Structural)]
pub struct ScopeId(pub u32);

/// A scope identifier paired with the identifier of its runtime.
#[derive(Clone, Copy, Debug, PartialEq, Eq, Structural)]
pub struct Scope {
    id: ScopeId,
    rt: RuntimeId,
}

impl Scope {
    pub closed spec fn scope_id(&self) -> ScopeId {
        self.id
    }

    pub closed spec fn runtime_id(&self) -> RuntimeId {
        self.rt
    }

    /// The scope `id` of the runtime `rt`.
    pub fn new(id: ScopeId, rt: &Runtime) -> (r: Self)
        ensures
            r.scope_id() == id,
            r.runtime_id() == rt.id,
    {
        Scope { id, rt: rt.id }
    }

    pub fn id(&self) -> (r: ScopeId)
        ensures
            r == self.scope_id(),
    {
        self.id
    }

    pub fn runtime(&self) -> (r: RuntimeId)
        ensures
            r == self.runtime_id(),
    {
        self.rt
    }
}

/// Two scopes are equal exactly when both their identifiers are.
pub proof fn lemma_scope_eq(a: Scope, b: Scope)
    ensures
        a == b <==> (a.scope_id() == b.scope_id() && a.runtime_id() == b.runtime_id()),
{
}

} // verus!

//! The document tree of one shader source file, and its mathematical model.

use vstd::prelude::*;

verus! {

/// A resource binding declaration: `@group(G) @binding(B)` followed by a
/// variable declaration whose source text is kept verbatim.
#[derive(Clone, Debug, PartialEq, Eq, PartialOrd, Ord)]
pub struct Binding {
    pub group: u32,
    pub binding: u32,
    /// The declaration as written, from `var` to the end of its type.
    pub decl: Vec<u8>,
}

/// A conditional block. `#ifdef`, `#ifndef`, `#if` and `#else ifdef` all
/// end up in this one shape.
#[derive(Debug)]
pub struct IfDef {
    pub name: Vec<u8>,
    pub resources: Vec<Resource>,
    pub else_branch: Option<Vec<Resource>>,
}

/// One directive of a document.
#[derive(Debug)]
pub enum Resource {
    IfDef(IfDef),
    Binding(Binding),
    OilImport(Vec<u8>),
    Def(Vec<u8>),
}

/// A parsed shader source file.
#[derive(Debug)]
pub struct WgslFile {
    pub pub_name: Option<Vec<u8>>,
    pub resources: Vec<Resource>,
}

/// Model of a [`Binding`].
pub struct BindingView {
    pub group: u32,
    pub binding: u32,
    pub decl: Seq<u8>,
}

/// Model of an [`IfDef`].
pub struct IfDefView {
    pub name: Seq<u8>,
    pub resources: Seq<ResourceView>,
    pub else_branch: Option<Seq<ResourceView>>,
}

/// Model of a [`Resource`].
pub enum ResourceView {
    IfDef(IfDefView),
    Binding(BindingView),
    OilImport(Seq<u8>),
    Def(Seq<u8>),
}

/// Model of a [`WgslFile`].
pub struct WgslFileView {
    pub pub_name: Option<Seq<u8>>,
    pub resources: Seq<ResourceView>,
}

impl View for Binding {
    type V = BindingView;

    open spec fn view(&self) -> BindingView {
        BindingView { group: self.group, binding: self.binding, decl: self.decl@ }
    }
}

/// The models of a list of resources, in order.
pub open spec fn resources_view(rs: Seq<Resource>) -> Seq<ResourceView>
    decreases rs,
{
    Seq::new(rs.len(), |i: int| if 0 <= i < rs.len() { resource_view(rs[i]) } else { arbitrary() })
}

/// The model of an optional second branch.
pub open spec fn branch_view(branch: Option<Vec<Resource>>) -> Option<Seq<ResourceView>>
    decreases branch,
{
    match branch {
        Some(rs) => Some(resources_view(rs@)),
        None => None,
    }
}

/// The model of a conditional.
pub open spec fn if_def_view(d: IfDef) -> IfDefView
    decreases d,
{
    IfDefView {
        name: d.name@,
        resources: resources_view(d.resources@),
        else_branch: branch_view(d.else_branch),
    }
}

/// The model of one resource.
pub open spec fn resource_view(r: Resource) -> ResourceView
    decreases r,
{
    match r {
        Resource::IfDef(d) => ResourceView::IfDef(if_def_view(d)),
        Resource::Binding(b) => ResourceView::Binding(b@),
        Resource::OilImport(n) => ResourceView::OilImport(n@),
        Resource::Def(n) => ResourceView::Def(n@),
    }
}

impl View for IfDef {
    type V = IfDefView;

    open spec fn view(&self) -> IfDefView {
        if_def_view(*self)
    }
}

impl View for Resource {
    type V = ResourceView;

    open spec fn view(&self) -> ResourceView {
        resource_view(*self)
    }
}

impl View for WgslFile {
    type V = WgslFileView;

    open spec fn view(&self) -> WgslFileView {
        WgslFileView {
            pub_name: match self.pub_name {
                Some(n) => Some(n@),
                None => None,
            },
            resources: resources_view(self.resources@),
        }
    }
}

/// The model of a list grows with the list: pushing a resource appends its
/// model.
pub proof fn lemma_resources_view_push(rs: Seq<Resource>, r: Resource)
    ensures
        resources_view(rs.push(r)) == resources_view(rs).push(r@),
{
    assert(resources_view(rs.push(r)) =~= resources_view(rs).push(r@));
}

} // verus!

//! The state that every node of a scene has: its name, its placement, its
//! visibility, its links into the hierarchy, its lifetime, its depth offset,
//! its level-of-detail group and the record of the resource it came from.
//!
//! Some of it is set by the author of a scene, through `BaseBuilder` and the
//! setters of `Base`. The rest belongs to the graph that owns the node: the
//! links to parent and children and the cached global visibility and
//! transform. Nothing outside this crate can change those on a node.

use crate::handle::Handle;
use crate::lod::{LodGroup, LodGroupView};
use crate::node::Node;
use crate::transform::{Matrix4, Transform, Vector3};
use crate::units::{clamp_magnitude_to_unit, clamp_unit, is_normalized, magnitude};
use vstd::prelude::*;

verus! {

/// The key under which the application keeps a shared resource, such as a
/// model that nodes were instantiated from.
#[derive(Clone, Copy, Debug, PartialEq, Eq, Structural, Hash)]
pub struct ResourceId(pub u64);

/// The common state of a node.
#[derive(Debug, PartialEq, Eq)]
pub struct Base {
    name: String,
    local_transform: Transform,
    visibility: bool,
    global_visibility: bool,
    parent: Handle,
    children: Vec<Handle>,
    global_transform: Matrix4,
    inv_bind_pose_transform: Matrix4,
    resource: Option<ResourceId>,
    original: Handle,
    is_resource_instance: bool,
    lifetime: Option<u64>,
    depth_offset: i64,
    lod_group: Option<LodGroup>,
}

/// What a `Base` holds.
pub struct BaseView {
    /// The label of the node. Several nodes may have the same one.
    pub name: Seq<char>,
    /// The placement in the space of the parent.
    pub local_transform: Transform,
    /// The visibility that the author set.
    pub visibility: bool,
    /// The visibility that follows from the node's own and its ancestors'.
    pub global_visibility: bool,
    /// The containing node; none for the root of a scene.
    pub parent: Handle,
    /// The contained nodes, in order.
    pub children: Seq<Handle>,
    /// The placement in the space of the scene.
    pub global_transform: Matrix4,
    /// The inverse bind pose of a bone; not persisted.
    pub inv_bind_pose_transform: Matrix4,
    /// The resource this node was instantiated from, if any.
    pub resource: Option<ResourceId>,
    /// The node of the resource's own graph that this node mirrors.
    pub original: Handle,
    /// Whether this node is the root of an instantiated subtree.
    pub is_resource_instance: bool,
    /// The microseconds left to live; none for a node that lives on.
    pub lifetime: Option<u64>,
    /// The bias of the render depth, in millionths.
    pub depth_offset: int,
    /// The levels of detail of the node, if any.
    pub lod_group: Option<LodGroupView>,
}

impl View for Base {
    type V = BaseView;

    closed spec fn view(&self) -> BaseView {
        BaseView {
            name: self.name@,
            local_transform: self.local_transform,
            visibility: self.visibility,
            global_visibility: self.global_visibility,
            parent: self.parent,
            children: self.children@,
            global_transform: self.global_transform,
            inv_bind_pose_transform: self.inv_bind_pose_transform,
            resource: self.resource,
            original: self.original,
            is_resource_instance: self.is_resource_instance,
            lifetime: self.lifetime,
            depth_offset: self.depth_offset as int,
            lod_group: match self.lod_group {
                Some(group) => Some(group@),
                None => None,
            },
        }
    }
}

impl BaseView {
    /// The invariant of a node's state: the depth offset is normalized and
    /// the level-of-detail group, if there is one, is well formed.
    pub open spec fn wf(self) -> bool {
        &&& is_normalized(self.depth_offset)
        &&& self.lod_group matches Some(group) ==> group.wf()
    }

    /// Whether two states agree in all that an author sets: everything but
    /// the links into the hierarchy, the cached global state and the bind
    /// pose.
    pub open spec fn same_authored_state(self, other: BaseView) -> bool {
        &&& self.name == other.name
        &&& self.local_transform == other.local_transform
        &&& self.visibility == other.visibility
        &&& self.resource == other.resource
        &&& self.original == other.original
        &&& self.is_resource_instance == other.is_resource_instance
        &&& self.lifetime == other.lifetime
        &&& self.depth_offset == other.depth_offset
        &&& self.lod_group == other.lod_group
    }

    /// The state of a node that no author has touched and no graph owns.
    pub open spec fn is_default(self) -> bool {
        &&& self.name == Seq::<char>::empty()
        &&& self.local_transform == Transform::spec_identity()
        &&& self.visibility
        &&& self.lifetime is None
        &&& self.depth_offset == 0
        &&& self.lod_group is None
        &&& self.resource is None
        &&& self.original == Handle::spec_none()
        &&& !self.is_resource_instance
        &&& self.inv_bind_pose_transform == Matrix4::spec_identity()
        &&& self.is_unattached()
    }

    /// Whether the state owned by a graph is as it is before any graph has
    /// taken the node: no parent, no children, globally visible, and the
    /// identity as global transform.
    pub open spec fn is_unattached(self) -> bool {
        &&& self.parent == Handle::spec_none()
        &&& self.children == Seq::<Handle>::empty()
        &&& self.global_visibility
        &&& self.global_transform == Matrix4::spec_identity()
    }
}

impl Base {
    /// The invariant of a node's state; see `BaseView::wf`.
    pub open spec fn wf(&self) -> bool {
        self@.wf()
    }

    /// The lengths of all lists of a node's state are machine-sized numbers.
    pub proof fn lengths_are_bounded(&self)
        ensures
            self@.children.len() <= usize::MAX,
            self@.lod_group matches Some(group) ==> {
                &&& group.levels.len() <= usize::MAX
                &&& forall|i: int|
                    0 <= i < group.levels.len() ==> (#[trigger] group.levels[i]).objects.len()
                        <= usize::MAX
            },
    {
        assert(self.children@.len() == self.children.len());
        match self.lod_group {
            Some(group) => {
                group.lengths_are_bounded();
            },
            None => {},
        }
    }

    /// Sets the name of the node.
    pub fn set_name(&mut self, name: &str) -> (r: &mut Self)
        ensures
            r@ == (BaseView { name: name@, ..old(self)@ }),
            *final(r) == *final(self),
    {
        self.name = name.to_owned();
        self
    }

    /// The name of the node.
    pub fn name(&self) -> (r: &str)
        ensures
            r@ == self@.name,
    {
        self.name.as_str()
    }

    /// The placement of the node in the space of its parent.
    pub fn local_transform(&self) -> (r: &Transform)
        ensures
            *r == self@.local_transform,
    {
        &self.local_transform
    }

    /// The placement of the node in the space of its parent, open to change.
    pub fn local_transform_mut(&mut self) -> (r: &mut Transform)
        ensures
            *r == old(self)@.local_transform,
            final(self)@ == (BaseView { local_transform: *final(r), ..old(self)@ }),
    {
        &mut self.local_transform
    }

    /// Sets the placement of the node in the space of its parent.
    pub fn set_local_transform(&mut self, transform: Transform) -> (r: &mut Self)
        ensures
            r@ == (BaseView { local_transform: transform, ..old(self)@ }),
            *final(r) == *final(self),
    {
        self.local_transform = transform;
        self
    }

    /// Gives the node `time` microseconds to live. A graph removes the node in
    /// the update in which that time runs out.
    pub fn set_lifetime(&mut self, time: u64) -> (r: &mut Self)
        ensures
            r@ == (BaseView { lifetime: Some(time), ..old(self)@ }),
            *final(r) == *final(self),
    {
        self.lifetime = Some(time);
        self
    }

    /// The microseconds the node has left to live; none for a node that
    /// lives on.
    pub fn lifetime(&self) -> (r: Option<u64>)
        ensures
            r == self@.lifetime,
    {
        self.lifetime
    }

    /// The handle of the containing node; none for the root of a scene and
    /// for a node that no graph owns.
    pub fn parent(&self) -> (r: Handle)
        ensures
            r == self@.parent,
    {
        self.parent
    }

    /// The handles of the contained nodes, in order.
    pub fn children(&self) -> (r: &[Handle])
        ensures
            r@ == self@.children,
    {
        self.children.as_slice()
    }

    /// The placement of the node in the space of the scene, as the owning
    /// graph last computed it.
    pub fn global_transform(&self) -> (r: Matrix4)
        ensures
            r == self@.global_transform,
    {
        self.global_transform
    }

    /// The inverse of the bind pose: for a bone, the inverse of its global
    /// transform at the time vertices were bound to it.
    pub fn inv_bind_pose_transform(&self) -> (r: Matrix4)
        ensures
            r == self@.inv_bind_pose_transform,
    {
        self.inv_bind_pose_transform
    }

    /// Sets the inverse of the bind pose.
    pub fn set_inv_bind_pose_transform(&mut self, matrix: Matrix4)
        ensures
            final(self)@ == (BaseView { inv_bind_pose_transform: matrix, ..old(self)@ }),
    {
        self.inv_bind_pose_transform = matrix;
    }

    /// Whether the node is the root of a subtree instantiated from a resource.
    pub fn is_resource_instance(&self) -> (r: bool)
        ensures
            r == self@.is_resource_instance,
    {
        self.is_resource_instance
    }

    /// The resource the node was instantiated from, if any.
    pub fn resource(&self) -> (r: Option<ResourceId>)
        ensures
            r == self@.resource,
    {
        self.resource
    }

    /// Sets the visibility of the node. The global visibility follows in the
    /// next update of the owning graph.
    pub fn set_visibility(&mut self, visibility: bool) -> (r: &mut Self)
        ensures
            r@ == (BaseView { visibility, ..old(self)@ }),
            *final(r) == *final(self),
    {
        self.visibility = visibility;
        self
    }

    /// The visibility that the author set.
    pub fn visibility(&self) -> (r: bool)
        ensures
            r == self@.visibility,
    {
        self.visibility
    }

    /// The visibility that follows from the node's own and its ancestors', as
    /// the owning graph last computed it: a node under an invisible ancestor
    /// is invisible.
    pub fn global_visibility(&self) -> (r: bool)
        ensures
            r == self@.global_visibility,
    {
        self.global_visibility
    }

    /// The node, in the graph of the resource, that this node mirrors.
    pub fn original_handle(&self) -> (r: Handle)
        ensures
            r == self@.original,
    {
        self.original
    }

    /// The position of the node in the space of the scene: the translation of
    /// the global transform.
    pub fn global_position(&self) -> (r: Vector3)
        ensures
            r == (Vector3 {
                x: self@.global_transform.cells@[12],
                y: self@.global_transform.cells@[13],
                z: self@.global_transform.cells@[14],
            }),
    {
        self.global_transform.position()
    }

    /// The "look" axis of the global transform; in general not of length one.
    pub fn look_vector(&self) -> (r: Vector3)
        ensures
            r == (Vector3 {
                x: self@.global_transform.cells@[8],
                y: self@.global_transform.cells@[9],
                z: self@.global_transform.cells@[10],
            }),
    {
        self.global_transform.look()
    }

    /// The "side" axis of the global transform; in general not of length one.
    pub fn side_vector(&self) -> (r: Vector3)
        ensures
            r == (Vector3 {
                x: self@.global_transform.cells@[0],
                y: self@.global_transform.cells@[1],
                z: self@.global_transform.cells@[2],
            }),
    {
        self.global_transform.side()
    }

    /// The "up" axis of the global transform; in general not of length one.
    pub fn up_vector(&self) -> (r: Vector3)
        ensures
            r == (Vector3 {
                x: self@.global_transform.cells@[4],
                y: self@.global_transform.cells@[5],
                z: self@.global_transform.cells@[6],
            }),
    {
        self.global_transform.up()
    }

    /// Sets the depth offset to the absolute value of `factor`, clamped into
    /// the normalized range.
    pub fn set_depth_offset_factor(&mut self, factor: i64)
        ensures
            final(self)@ == (BaseView {
                depth_offset: clamp_unit(magnitude(factor as int)),
                ..old(self)@
            }),
            old(self).wf() ==> final(self).wf(),
    {
        self.depth_offset = clamp_magnitude_to_unit(factor);
    }

    /// The depth offset, in millionths.
    pub fn depth_offset_factor(&self) -> (r: i64)
        ensures
            r as int == self@.depth_offset,
    {
        self.depth_offset
    }

    /// Puts `lod_group` in the place of the node's group and returns the one
    /// that was there.
    pub fn set_lod_group(&mut self, lod_group: LodGroup) -> (r: Option<LodGroup>)
        ensures
            match r {
                Some(previous) => old(self)@.lod_group == Some(previous@),
                None => old(self)@.lod_group is None,
            },
            final(self)@ == (BaseView { lod_group: Some(lod_group@), ..old(self)@ }),
            old(self).wf() && lod_group.wf() ==> final(self).wf(),
    {
        let previous: Option<LodGroup> = self.lod_group.take();
        self.lod_group = Some(lod_group);
        previous
    }

    /// The level-of-detail group of the node, if it has one.
    pub fn lod_group(&self) -> (r: Option<&LodGroup>)
        ensures
            r is Some <==> self@.lod_group is Some,
            r matches Some(group) ==> group@ == self@.lod_group->0,
    {
        self.lod_group.as_ref()
    }

    /// The level-of-detail group of the node, open to change, if it has one.
    pub fn lod_group_mut(&mut self) -> (r: Option<&mut LodGroup>)
        ensures
            r is Some <==> old(self)@.lod_group is Some,
            r matches Some(group) ==> group@ == old(self)@.lod_group->0 && final(self)@ == (BaseView {
                lod_group: Some(final(group)@),
                ..old(self)@
            }),
            r is None ==> final(self)@ == old(self)@,
    {
        self.lod_group.as_mut()
    }

    /// A copy of what the author set: the name, the local transform, the
    /// visibility, the bind pose, the resource, the resource-instance flag and
    /// the lifetime. All else is as in a node fresh from the builder: the copy
    /// has no parent, no children, no original, no level-of-detail group, no
    /// depth offset, and its cached global state is reset. It is in no graph.
    pub fn raw_copy(&self) -> (copy: Self)
        ensures
            copy.wf(),
            copy@ == (BaseView {
                name: self@.name,
                local_transform: self@.local_transform,
                visibility: self@.visibility,
                inv_bind_pose_transform: self@.inv_bind_pose_transform,
                resource: self@.resource,
                is_resource_instance: self@.is_resource_instance,
                lifetime: self@.lifetime,
                ..copy@
            }),
            copy@.is_unattached(),
            copy@.original == Handle::spec_none(),
            copy@.depth_offset == 0,
            copy@.lod_group is None,
    {
        Base {
            name: self.name.clone(),
            local_transform: self.local_transform,
            visibility: self.visibility,
            global_visibility: true,
            parent: Handle::none(),
            children: Vec::new(),
            global_transform: Matrix4::identity(),
            inv_bind_pose_transform: self.inv_bind_pose_transform,
            resource: self.resource,
            original: Handle::none(),
            is_resource_instance: self.is_resource_instance,
            lifetime: self.lifetime,
            depth_offset: 0,
            lod_group: None,
        }
    }

    /// A node's state as a persistence layer read it: the settings of
    /// `builder`, the parent link as it was written, and the record of where
    /// the node was instantiated from. The cached global state and the bind
    /// pose start as in any node fresh from the builder. The state is in no
    /// graph: a graph that takes it links it anew.
    pub fn restore(
        builder: BaseBuilder,
        parent: Handle,
        resource: Option<ResourceId>,
        original: Handle,
        is_resource_instance: bool,
    ) -> (base: Self)
        ensures
            base@ == (BaseView {
                parent,
                resource,
                original,
                is_resource_instance,
                ..builder@.built()
            }),
            builder.wf() ==> base.wf(),
    {
        let mut base = builder.build();
        base.parent = parent;
        base.resource = resource;
        base.original = original;
        base.is_resource_instance = is_resource_instance;
        base
    }

    /// Sets the link to the containing node.
    pub(crate) fn set_parent(&mut self, parent: Handle)
        ensures
            final(self)@ == (BaseView { parent, ..old(self)@ }),
    {
        self.parent = parent;
    }

    /// Appends `child` to the contained nodes.
    pub(crate) fn push_child(&mut self, child: Handle)
        ensures
            final(self)@ == (BaseView { children: old(self)@.children.push(child), ..old(self)@ }),
    {
        self.children.push(child);
    }

    /// Takes the child at place `i` out of the contained nodes. The others
    /// keep their order.
    pub(crate) fn remove_child_at(&mut self, i: usize)
        requires
            i < old(self)@.children.len(),
        ensures
            final(self)@ == (BaseView {
                children: old(self)@.children.remove(i as int),
                ..old(self)@
            }),
    {
        self.children.remove(i);
    }

    /// Puts `children` in the place of the list of contained nodes.
    pub(crate) fn set_children(&mut self, children: Vec<Handle>)
        ensures
            final(self)@ == (BaseView { children: children@, ..old(self)@ }),
    {
        self.children = children;
    }

    /// Sets what an update computes: the cached global visibility, the
    /// cached global transform and the remaining lifetime.
    pub(crate) fn settle(
        &mut self,
        global_visibility: bool,
        global_transform: Matrix4,
        lifetime: Option<u64>,
    )
        ensures
            final(self)@ == (BaseView {
                global_visibility,
                global_transform,
                lifetime,
                ..old(self)@
            }),
    {
        self.global_visibility = global_visibility;
        self.global_transform = global_transform;
        self.lifetime = lifetime;
    }

    /// Empties the list of contained nodes and returns what it held.
    pub(crate) fn take_children(&mut self) -> (r: Vec<Handle>)
        ensures
            r@ == old(self)@.children,
            final(self)@ == (BaseView { children: Seq::<Handle>::empty(), ..old(self)@ }),
    {
        let mut taken: Vec<Handle> = Vec::new();
        std::mem::swap(&mut self.children, &mut taken);
        taken
    }

    /// Records where the node was instantiated from.
    pub(crate) fn set_origin(
        &mut self,
        resource: Option<ResourceId>,
        original: Handle,
        is_resource_instance: bool,
    )
        ensures
            final(self)@ == (BaseView {
                resource,
                original,
                is_resource_instance,
                ..old(self)@
            }),
    {
        self.resource = resource;
        self.original = original;
        self.is_resource_instance = is_resource_instance;
    }
}

impl Default for Base {
    fn default() -> (base: Self)
        ensures
            base.wf(),
            base@.is_default(),
    {
        BaseBuilder::new().build()
    }
}

/// Collects the settings of a node before it is built. What is not set takes
/// its default: visible, placed by the identity, no children, living on, no
/// depth offset, no level-of-detail group, an empty name.
pub struct BaseBuilder {
    name: Option<String>,
    visibility: Option<bool>,
    local_transform: Option<Transform>,
    children: Option<Vec<Handle>>,
    lifetime: Option<u64>,
    depth_offset: i64,
    lod_group: Option<LodGroup>,
}

/// What a `BaseBuilder` holds.
pub struct BaseBuilderView {
    pub name: Option<Seq<char>>,
    pub visibility: Option<bool>,
    pub local_transform: Option<Transform>,
    pub children: Option<Seq<Handle>>,
    pub lifetime: Option<u64>,
    pub depth_offset: int,
    pub lod_group: Option<LodGroupView>,
}

impl View for BaseBuilder {
    type V = BaseBuilderView;

    closed spec fn view(&self) -> BaseBuilderView {
        BaseBuilderView {
            name: match self.name {
                Some(name) => Some(name@),
                None => None,
            },
            visibility: self.visibility,
            local_transform: self.local_transform,
            children: match self.children {
                Some(children) => Some(children@),
                None => None,
            },
            lifetime: self.lifetime,
            depth_offset: self.depth_offset as int,
            lod_group: match self.lod_group {
                Some(group) => Some(group@),
                None => None,
            },
        }
    }
}

impl BaseBuilderView {
    /// The settings of a builder on which nothing was set.
    pub open spec fn is_blank(self) -> bool {
        &&& self.name is None
        &&& self.visibility is None
        &&& self.local_transform is None
        &&& self.children is None
        &&& self.lifetime is None
        &&& self.depth_offset == 0
        &&& self.lod_group is None
    }

    /// The state of the node that these settings build.
    pub open spec fn built(self) -> BaseView {
        BaseView {
            name: match self.name {
                Some(name) => name,
                None => Seq::<char>::empty(),
            },
            local_transform: match self.local_transform {
                Some(transform) => transform,
                None => Transform::spec_identity(),
            },
            visibility: match self.visibility {
                Some(visibility) => visibility,
                None => true,
            },
            global_visibility: true,
            parent: Handle::spec_none(),
            children: match self.children {
                Some(children) => children,
                None => Seq::<Handle>::empty(),
            },
            global_transform: Matrix4::spec_identity(),
            inv_bind_pose_transform: Matrix4::spec_identity(),
            resource: None,
            original: Handle::spec_none(),
            is_resource_instance: false,
            lifetime: self.lifetime,
            depth_offset: self.depth_offset,
            lod_group: self.lod_group,
        }
    }
}

impl BaseBuilder {
    /// The invariant of a builder: the depth offset is normalized and the
    /// level-of-detail group, if one was set, is well formed.
    pub open spec fn wf(&self) -> bool {
        &&& is_normalized(self@.depth_offset)
        &&& self@.lod_group matches Some(group) ==> group.wf()
    }

    /// A builder on which nothing is set.
    pub fn new() -> (builder: Self)
        ensures
            builder.wf(),
            builder@.is_blank(),
    {
        BaseBuilder {
            name: None,
            visibility: None,
            local_transform: None,
            children: None,
            lifetime: None,
            depth_offset: 0,
            lod_group: None,
        }
    }

    /// Sets the name.
    pub fn with_name(self, name: &str) -> (builder: Self)
        ensures
            builder@ == (BaseBuilderView { name: Some(name@), ..self@ }),
    {
        let mut builder = self;
        builder.name = Some(name.to_owned());
        builder
    }

    /// Sets the visibility.
    pub fn with_visibility(self, visibility: bool) -> (builder: Self)
        ensures
            builder@ == (BaseBuilderView { visibility: Some(visibility), ..self@ }),
    {
        let mut builder = self;
        builder.visibility = Some(visibility);
        builder
    }

    /// Sets the local transform.
    pub fn with_local_transform(self, transform: Transform) -> (builder: Self)
        ensures
            builder@ == (BaseBuilderView { local_transform: Some(transform), ..self@ }),
    {
        let mut builder = self;
        builder.local_transform = Some(transform);
        builder
    }

    /// Sets the children. The graph that takes the node makes them its
    /// children in fact.
    pub fn with_children(self, children: Vec<Handle>) -> (builder: Self)
        ensures
            builder@ == (BaseBuilderView { children: Some(children@), ..self@ }),
    {
        let mut builder = self;
        builder.children = Some(children);
        builder
    }

    /// Sets the lifetime, in microseconds.
    pub fn with_lifetime(self, time: u64) -> (builder: Self)
        ensures
            builder@ == (BaseBuilderView { lifetime: Some(time), ..self@ }),
    {
        let mut builder = self;
        builder.lifetime = Some(time);
        builder
    }

    /// Sets the depth offset to the absolute value of `offset`, clamped into
    /// the normalized range.
    pub fn with_depth_offset(self, offset: i64) -> (builder: Self)
        ensures
            builder@ == (BaseBuilderView {
                depth_offset: clamp_unit(magnitude(offset as int)),
                ..self@
            }),
            self.wf() ==> builder.wf(),
    {
        let mut builder = self;
        builder.depth_offset = clamp_magnitude_to_unit(offset);
        builder
    }

    /// Sets the level-of-detail group.
    pub fn with_lod_group(self, lod_group: LodGroup) -> (builder: Self)
        ensures
            builder@ == (BaseBuilderView { lod_group: Some(lod_group@), ..self@ }),
            self.wf() && lod_group.wf() ==> builder.wf(),
    {
        let mut builder = self;
        builder.lod_group = Some(lod_group);
        builder
    }

    /// Builds the state of a node from the settings. What a graph owns is not
    /// among the settings and starts out the same for every node: no parent,
    /// globally visible, the identity as global transform. The node is in no
    /// graph yet.
    pub fn build(self) -> (base: Base)
        ensures
            base@ == self@.built(),
            self.wf() ==> base.wf(),
    {
        Base {
            name: match self.name {
                Some(name) => name,
                None => String::new(),
            },
            children: match self.children {
                Some(children) => children,
                None => Vec::new(),
            },
            local_transform: match self.local_transform {
                Some(transform) => transform,
                None => Transform::identity(),
            },
            lifetime: self.lifetime,
            visibility: match self.visibility {
                Some(visibility) => visibility,
                None => true,
            },
            global_visibility: true,
            parent: Handle::none(),
            global_transform: Matrix4::identity(),
            inv_bind_pose_transform: Matrix4::identity(),
            resource: None,
            original: Handle::none(),
            is_resource_instance: false,
            depth_offset: self.depth_offset,
            lod_group: self.lod_group,
        }
    }

    /// Builds a node with this state.
    pub fn build_node(self) -> (node: Node)
        ensures
            node.spec_base()@ == self@.built(),
            self.wf() ==> node.spec_base().wf(),
    {
        Node::Base(self.build())
    }
}

impl Default for BaseBuilder {
    fn default() -> (builder: Self)
        ensures
            builder.wf(),
            builder@.is_blank(),
    {
        BaseBuilder::new()
    }
}

} // verus!

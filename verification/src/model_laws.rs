//! What the views of the patch and the look-ups in the registry come down to.

use vstd::prelude::*;

use crate::model::{
    names, type_icon, type_ports, Descriptor, Endpoint, InputNames, Inputs,
    ModuleType, Node, Registry, TypeIcon, Wire,
};

verus! {

/// An endpoint is the id of a node and the name of a port; a wire is both of its ends.
pub proof fn law_wire_is_its_ends(e: Endpoint, w: Wire)
    ensures
        e@ == (e.0@, e.1@),
        w@ == ((w.from.0@, w.from.1@), (w.to.0@, w.to.1@)),
{
}

/// A list of names has the characters of every string, in order.
pub proof fn law_names_are_the_strings(list: Seq<String>)
    ensures
        names(list).len() == list.len(),
        forall|k: int| 0 <= k < list.len() ==> #[trigger] names(list)[k] == list[k]@,
{
}

/// A descriptor has all its outputs and all its inputs, in order.
pub proof fn law_descriptor_has_all_ports(d: Descriptor)
    ensures
        d@.outputs.len() == d.outputs@.len(),
        forall|k: int| 0 <= k < d.outputs@.len() ==> #[trigger] d@.outputs[k] == d.outputs@[k]@,
        match d.inputs {
            Inputs::Fixed(list) => {
                &&& d@.inputs matches InputNames::Fixed(shown)
                &&& shown.len() == list@.len()
                &&& forall|k: int| 0 <= k < list@.len() ==> #[trigger] shown[k] == list@[k]@
            },
            Inputs::Variadic(name) => d@.inputs == InputNames::Variadic(name@),
        },
{
}

/// A node is its id, its type, its channels and its ports.
pub proof fn law_node_is_its_fields(n: Node)
    ensures
        n@.id == n.id@,
        n@.ty == n.ty@,
        n@.channels == n.channels,
        n.desc is None <==> n@.desc is None,
        n.desc matches Some(d) ==> n@.desc == Some(d@),
{
}

/// What a type is described as is what the first entry of that name says.
pub proof fn law_first_entry_describes(types: Seq<ModuleType>, ty: Seq<char>)
    ensures
        match type_ports(types, ty) {
            Some(ports) => exists|i: int|
                {
                    &&& 0 <= i < types.len()
                    &&& (#[trigger] types[i]).type_id@ == ty
                    &&& ports == types[i].desc@
                    &&& forall|j: int| 0 <= j < i ==> (#[trigger] types[j]).type_id@ != ty
                },
            None => forall|i: int| 0 <= i < types.len() ==> (#[trigger] types[i]).type_id@ != ty,
        },
    decreases types.len(),
{
    if types.len() > 0 && types[0].type_id@ != ty {
        let rest = types.drop_first();
        law_first_entry_describes(rest, ty);
        if let Some(ports) = type_ports(rest, ty) {
            let i = choose|i: int|
                {
                    &&& 0 <= i < rest.len()
                    &&& (#[trigger] rest[i]).type_id@ == ty
                    &&& ports == rest[i].desc@
                    &&& forall|j: int| 0 <= j < i ==> (#[trigger] rest[j]).type_id@ != ty
                };
            assert(types[i + 1] == rest[i]);
            assert forall|j: int| 0 <= j < i + 1 implies (#[trigger] types[j]).type_id@ != ty by {
                if j > 0 {
                    assert(rest[j - 1] == types[j]);
                }
            }
        } else {
            assert forall|i: int| 0 <= i < types.len() implies (#[trigger] types[i]).type_id@
                != ty by {
                if i > 0 {
                    assert(rest[i - 1] == types[i]);
                }
            }
        }
    } else if types.len() > 0 {
        assert(types[0].type_id@ == ty);
    }
}

/// The icon of a type is the one of the first entry of that name.
pub proof fn law_first_entry_has_the_icon(icons: Seq<TypeIcon>, ty: Seq<char>)
    ensures
        match type_icon(icons, ty) {
            Some(icon) => exists|i: int|
                {
                    &&& 0 <= i < icons.len()
                    &&& (#[trigger] icons[i]).type_id@ == ty
                    &&& icon == icons[i].icon
                    &&& forall|j: int| 0 <= j < i ==> (#[trigger] icons[j]).type_id@ != ty
                },
            None => forall|i: int| 0 <= i < icons.len() ==> (#[trigger] icons[i]).type_id@ != ty,
        },
    decreases icons.len(),
{
    if icons.len() > 0 && icons[0].type_id@ != ty {
        let rest = icons.drop_first();
        law_first_entry_has_the_icon(rest, ty);
        if let Some(icon) = type_icon(rest, ty) {
            let i = choose|i: int|
                {
                    &&& 0 <= i < rest.len()
                    &&& (#[trigger] rest[i]).type_id@ == ty
                    &&& icon == rest[i].icon
                    &&& forall|j: int| 0 <= j < i ==> (#[trigger] rest[j]).type_id@ != ty
                };
            assert(icons[i + 1] == rest[i]);
            assert forall|j: int| 0 <= j < i + 1 implies (#[trigger] icons[j]).type_id@ != ty by {
                if j > 0 {
                    assert(rest[j - 1] == icons[j]);
                }
            }
        } else {
            assert forall|i: int| 0 <= i < icons.len() implies (#[trigger] icons[i]).type_id@
                != ty by {
                if i > 0 {
                    assert(rest[i - 1] == icons[i]);
                }
            }
        }
    } else if icons.len() > 0 {
        assert(icons[0].type_id@ == ty);
    }
}

/// A type registered as a source has the ports of the first such source; one that is no source has
/// those of the first such module; any other has none.
pub proof fn law_sources_come_before_modules(registry: Registry, ty: Seq<char>, i: int)
    ensures
        0 <= i < registry.sources@.len() && registry.sources@[i].type_id@ == ty && (forall|j: int|
            0 <= j < i ==> (#[trigger] registry.sources@[j]).type_id@ != ty)
            ==> registry.ports_of(ty) == Some(registry.sources@[i].desc@),
        (forall|j: int|
            0 <= j < registry.sources@.len() ==> (#[trigger] registry.sources@[j]).type_id@ != ty)
            && 0 <= i < registry.modules@.len() && registry.modules@[i].type_id@ == ty && (forall|
            j: int,
        |
            0 <= j < i ==> (#[trigger] registry.modules@[j]).type_id@ != ty)
            ==> registry.ports_of(ty) == Some(registry.modules@[i].desc@),
        (forall|j: int|
            0 <= j < registry.sources@.len() ==> (#[trigger] registry.sources@[j]).type_id@ != ty)
            && (forall|j: int|
            0 <= j < registry.modules@.len() ==> (#[trigger] registry.modules@[j]).type_id@ != ty)
            ==> registry.ports_of(ty) is None,
{
    law_first_entry_describes(registry.sources@, ty);
    law_first_entry_describes(registry.modules@, ty);
    lemma_same_first(registry.sources@, ty, i);
    lemma_same_first(registry.modules@, ty, i);
}

proof fn lemma_same_first(types: Seq<ModuleType>, ty: Seq<char>, i: int)
    ensures
        0 <= i < types.len() && types[i].type_id@ == ty && (forall|j: int|
            0 <= j < i ==> (#[trigger] types[j]).type_id@ != ty) ==> type_ports(types, ty) == Some(
            types[i].desc@,
        ),
{
    law_first_entry_describes(types, ty);
    if 0 <= i < types.len() && types[i].type_id@ == ty && (forall|j: int|
        0 <= j < i ==> (#[trigger] types[j]).type_id@ != ty) {
        let ports = type_ports(types, ty)->0;
        let k = choose|k: int|
            {
                &&& 0 <= k < types.len()
                &&& (#[trigger] types[k]).type_id@ == ty
                &&& ports == types[k].desc@
                &&& forall|j: int| 0 <= j < k ==> (#[trigger] types[j]).type_id@ != ty
            };
        if k < i {
            assert(types[k].type_id@ != ty);
        } else if i < k {
            assert(types[i].type_id@ != ty);
        }
    }
}

/// The sink has its own icon whatever is registered; any other type has that of the first entry of
/// its name, or the one for unknown types.
pub proof fn law_icon_belongs_to_the_type(registry: Registry, ty: Seq<char>, i: int)
    ensures
        registry.icon_of("audio_output"@) == registry.audio_output,
        ty != "audio_output"@ && 0 <= i < registry.icons@.len() && registry.icons@[i].type_id@ == ty
            && (forall|j: int| 0 <= j < i ==> (#[trigger] registry.icons@[j]).type_id@ != ty)
            ==> registry.icon_of(ty) == registry.icons@[i].icon,
        ty != "audio_output"@ && (forall|j: int|
            0 <= j < registry.icons@.len() ==> (#[trigger] registry.icons@[j]).type_id@ != ty)
            ==> registry.icon_of(ty) == registry.unknown,
{
    let icons = registry.icons@;
    law_first_entry_has_the_icon(icons, ty);
    if let Some(icon) = type_icon(icons, ty) {
        let k = choose|k: int|
            {
                &&& 0 <= k < icons.len()
                &&& (#[trigger] icons[k]).type_id@ == ty
                &&& icon == icons[k].icon
                &&& forall|j: int| 0 <= j < k ==> (#[trigger] icons[j]).type_id@ != ty
            };
        if 0 <= i < icons.len() && icons[i].type_id@ == ty && (forall|j: int|
            0 <= j < i ==> (#[trigger] icons[j]).type_id@ != ty) {
            if k < i {
                assert(icons[k].type_id@ != ty);
            } else if i < k {
                assert(icons[i].type_id@ != ty);
            }
        }
    }
}

} // verus!

//! What declarations make of a registry of fields.

use crate::schema::{
    declared, event_types, field_types, kernel_events, registered, DeclaredEvent, DeclaredField,
    EventTypes, FieldType,
};
use vstd::prelude::*;

verus! {

/// A field that is declared once more has the type that it is given last, and no
/// other field of the list is touched.
pub proof fn later_fields_win(fields: Seq<DeclaredField>, name: Seq<char>, t: FieldType)
    ensures
        ({
            let more = field_types(fields.push((name, t)));
            &&& more.contains_key(name) && more[name] == t
            &&& forall|other: Seq<char>|
                other != name ==> {
                    &&& (#[trigger] more.contains_key(other)) == field_types(fields).contains_key(
                        other,
                    )
                    &&& more.contains_key(other) ==> more[other] == field_types(fields)[other]
                }
        }),
        !field_types(Seq::empty()).contains_key(name),
{
    assert(fields.push((name, t)).drop_last() =~= fields);
    assert(fields.push((name, t)).last() == (name, t));
}

/// A kind of event that is declared once more has the fields that it is given last,
/// and no others; no other kind is touched.
pub proof fn later_events_win(
    events: Seq<DeclaredEvent>,
    name: Seq<char>,
    fields: Seq<DeclaredField>,
)
    ensures
        ({
            let more = event_types(events.push((name, fields)));
            &&& more.contains_key(name) && more[name] == field_types(fields)
            &&& forall|other: Seq<char>|
                other != name ==> {
                    &&& (#[trigger] more.contains_key(other)) == event_types(events).contains_key(
                        other,
                    )
                    &&& more.contains_key(other) ==> more[other] == event_types(events)[other]
                }
        }),
        !event_types(Seq::empty()).contains_key(name),
{
    assert(events.push((name, fields)).drop_last() =~= events);
    assert(events.push((name, fields)).last() == (name, fields));
}

/// Of declarations of one module the last holds, and declarations of others change
/// nothing of it.
pub proof fn later_declarations_win(
    before: Map<Seq<char>, EventTypes>,
    decls: Seq<(Seq<char>, Seq<DeclaredEvent>)>,
    module: Seq<char>,
    events: Seq<DeclaredEvent>,
    event_type: Seq<char>,
    field: Seq<char>,
    other: Seq<char>,
)
    requires
        other != module,
    ensures
        ({
            let more = registered(before, decls.push((module, events)));
            &&& declared(more, module, event_type, field) == declared(
                Map::empty().insert(module, event_types(events)),
                module,
                event_type,
                field,
            )
            &&& declared(more, other, event_type, field) == declared(
                registered(before, decls),
                other,
                event_type,
                field,
            )
        }),
        registered(before, Seq::empty()) == before,
        declared(Map::empty(), module, event_type, field) is None,
{
    assert(decls.push((module, events)).drop_last() =~= decls);
    assert(decls.push((module, events)).last() == (module, events));
}

/// Names that differ.
pub open spec fn apart<T>(items: Seq<(Seq<char>, T)>) -> bool {
    forall|i: int, j: int|
        0 <= i < j < items.len() ==> (#[trigger] items[i]).0 != (#[trigger] items[j]).0
}

proof fn field_is_found(fields: Seq<DeclaredField>, j: int)
    requires
        apart(fields),
        0 <= j < fields.len(),
    ensures
        field_types(fields).contains_key(fields[j].0),
        field_types(fields)[fields[j].0] == fields[j].1,
    decreases fields.len(),
{
    if j < fields.len() - 1 {
        let rest = fields.drop_last();
        assert forall|a: int, b: int| 0 <= a < b < rest.len() implies (#[trigger] rest[a]).0 != (
        #[trigger] rest[b]).0 by {
            assert(fields[a].0 != fields[b].0);
        }
        assert(fields[j].0 != fields[fields.len() - 1].0);
        field_is_found(rest, j);
    }
}

proof fn event_is_found(events: Seq<DeclaredEvent>, i: int)
    requires
        apart(events),
        0 <= i < events.len(),
    ensures
        event_types(events).contains_key(events[i].0),
        event_types(events)[events[i].0] == field_types(events[i].1),
    decreases events.len(),
{
    if i < events.len() - 1 {
        let rest = events.drop_last();
        assert forall|a: int, b: int| 0 <= a < b < rest.len() implies (#[trigger] rest[a]).0 != (
        #[trigger] rest[b]).0 by {
            assert(events[a].0 != events[b].0);
        }
        assert(events[i].0 != events[events.len() - 1].0);
        event_is_found(rest, i);
    }
}

/// Where names differ, every declared field is found with its type, whatever was
/// declared before.
pub proof fn declared_fields_are_found(
    before: Map<Seq<char>, EventTypes>,
    decls: Seq<(Seq<char>, Seq<DeclaredEvent>)>,
    module: Seq<char>,
    events: Seq<DeclaredEvent>,
    i: int,
    j: int,
)
    requires
        apart(events),
        0 <= i < events.len(),
        apart(events[i].1),
        0 <= j < events[i].1.len(),
    ensures
        declared(
            registered(before, decls.push((module, events))),
            module,
            events[i].0,
            events[i].1[j].0,
        ) == Some(events[i].1[j].1),
{
    assert(decls.push((module, events)).last() == (module, events));
    event_is_found(events, i);
    field_is_found(events[i].1, j);
}

/// The kinds of events of the kernel driver have names that differ, and so have the
/// fields of each.
pub proof fn kernel_names_differ()
    ensures
        apart(kernel_events()),
        forall|i: int| 0 <= i < kernel_events().len() ==> apart((#[trigger] kernel_events()[i]).1),
{
    event_names_differ();
    create_fields_differ();
    load_fields_differ();
    write_fields_differ();
    thread_fields_differ();
    access_fields_differ();
    assert(kernel_events().len() == 7);
    assert(kernel_events()[1].1.len() == 1);
    assert forall|i: int| 0 <= i < kernel_events().len() implies apart(
        (#[trigger] kernel_events()[i]).1,
    ) by {
        assert(i == 0 || i == 1 || i == 2 || i == 3 || i == 4 || i == 5 || i == 6);
    }
}

proof fn event_names_differ()
    ensures
        apart(kernel_events()),
{
    reveal_strlit("process_create");
    reveal_strlit("process_terminate");
    reveal_strlit("module_load");
    reveal_strlit("registry_write");
    reveal_strlit("thread_create");
    reveal_strlit("thread_exit");
    reveal_strlit("process_handle_access");
    let f = kernel_events();
    assert(f.len() == 7);
    assert(f[0].0 == "process_create"@ && f[0].0.len() == 14);
    assert(f[1].0 == "process_terminate"@ && f[1].0.len() == 17);
    assert(f[2].0 == "module_load"@ && f[2].0.len() == 11);
    assert(f[3].0 == "registry_write"@ && f[3].0.len() == 14);
    assert(f[4].0 == "thread_create"@ && f[4].0.len() == 13);
    assert(f[5].0 == "thread_exit"@ && f[5].0.len() == 11);
    assert(f[6].0 == "process_handle_access"@ && f[6].0.len() == 21);
    assert(f[0].0[0] == 'p' && f[3].0[0] == 'r');
    assert(f[2].0[0] == 'm' && f[5].0[0] == 't');
    assert(apart(f));
}

proof fn create_fields_differ()
    ensures
        apart(kernel_events()[0].1),
{
    reveal_strlit("pid");
    reveal_strlit("parent_pid");
    reveal_strlit("creating_pid");
    reveal_strlit("image_path");
    let f = kernel_events()[0].1;
    assert(f.len() == 4);
    assert(f[0].0 == "pid"@ && f[0].0.len() == 3);
    assert(f[1].0 == "parent_pid"@ && f[1].0.len() == 10);
    assert(f[2].0 == "creating_pid"@ && f[2].0.len() == 12);
    assert(f[3].0 == "image_path"@ && f[3].0.len() == 10);
    assert(f[1].0[0] == 'p' && f[3].0[0] == 'i');
    assert(apart(f));
}

proof fn load_fields_differ()
    ensures
        apart(kernel_events()[2].1),
{
    reveal_strlit("pid");
    reveal_strlit("scope");
    reveal_strlit("image_base");
    reveal_strlit("image_size");
    reveal_strlit("image_path");
    let f = kernel_events()[2].1;
    assert(f.len() == 5);
    assert(f[0].0 == "pid"@ && f[0].0.len() == 3);
    assert(f[1].0 == "scope"@ && f[1].0.len() == 5);
    assert(f[2].0 == "image_base"@ && f[2].0.len() == 10);
    assert(f[3].0 == "image_size"@ && f[3].0.len() == 10);
    assert(f[4].0 == "image_path"@ && f[4].0.len() == 10);
    assert(f[2].0[6] == 'b' && f[3].0[6] == 's' && f[4].0[6] == 'p');
    assert(apart(f));
}

proof fn write_fields_differ()
    ensures
        apart(kernel_events()[3].1),
{
    reveal_strlit("pid");
    reveal_strlit("op");
    reveal_strlit("op_code");
    reveal_strlit("key_path");
    reveal_strlit("value_name");
    reveal_strlit("value_type");
    reveal_strlit("data_size");
    reveal_strlit("data_preview_hex");
    reveal_strlit("data_truncated");
    let f = kernel_events()[3].1;
    assert(f.len() == 9);
    assert(f[0].0 == "pid"@ && f[0].0.len() == 3);
    assert(f[1].0 == "op"@ && f[1].0.len() == 2);
    assert(f[2].0 == "op_code"@ && f[2].0.len() == 7);
    assert(f[3].0 == "key_path"@ && f[3].0.len() == 8);
    assert(f[4].0 == "value_name"@ && f[4].0.len() == 10);
    assert(f[5].0 == "value_type"@ && f[5].0.len() == 10);
    assert(f[6].0 == "data_size"@ && f[6].0.len() == 9);
    assert(f[7].0 == "data_preview_hex"@ && f[7].0.len() == 16);
    assert(f[8].0 == "data_truncated"@ && f[8].0.len() == 14);
    assert(f[4].0[6] == 'n' && f[5].0[6] == 't');
    assert(apart(f));
}

proof fn thread_fields_differ()
    ensures
        apart(kernel_events()[4].1),
        apart(kernel_events()[5].1),
{
    reveal_strlit("pid");
    reveal_strlit("tid");
    reveal_strlit("creating_pid");
    reveal_strlit("remote_injection");
    let f = kernel_events()[4].1;
    assert(f.len() == 4);
    assert(f[0].0 == "pid"@ && f[0].0.len() == 3);
    assert(f[1].0 == "tid"@ && f[1].0.len() == 3);
    assert(f[2].0 == "creating_pid"@ && f[2].0.len() == 12);
    assert(f[3].0 == "remote_injection"@ && f[3].0.len() == 16);
    assert(f[0].0[0] == 'p' && f[1].0[0] == 't');
    assert(apart(f));
    let g = kernel_events()[5].1;
    assert(g.len() == 2);
    assert(g[0].0 == "pid"@ && g[1].0 == "tid"@);
    assert(apart(g));
}

proof fn access_fields_differ()
    ensures
        apart(kernel_events()[6].1),
{
    reveal_strlit("source_pid");
    reveal_strlit("target_pid");
    reveal_strlit("desired_access");
    reveal_strlit("original_desired_access");
    reveal_strlit("op");
    let f = kernel_events()[6].1;
    assert(f.len() == 5);
    assert(f[0].0 == "source_pid"@ && f[0].0.len() == 10);
    assert(f[1].0 == "target_pid"@ && f[1].0.len() == 10);
    assert(f[2].0 == "desired_access"@ && f[2].0.len() == 14);
    assert(f[3].0 == "original_desired_access"@ && f[3].0.len() == 23);
    assert(f[4].0 == "op"@ && f[4].0.len() == 2);
    assert(f[0].0[0] == 's' && f[1].0[0] == 't');
    assert(apart(f));
}

/// The type of a field of the kernel driver follows from its name: identifiers,
/// addresses, sizes, codes and access masks are integers, marks are truth values,
/// and the others are texts. None is a float.
pub proof fn kernel_types_follow_names(i: int, j: int)
    requires
        0 <= i < kernel_events().len(),
        0 <= j < kernel_events()[i].1.len(),
    ensures
        ({
            let (name, t) = kernel_events()[i].1[j];
            match t {
                FieldType::Int => {
                    ||| name == "pid"@ || name == "tid"@
                    ||| name == "parent_pid"@ || name == "creating_pid"@
                    ||| name == "source_pid"@ || name == "target_pid"@
                    ||| name == "image_base"@ || name == "image_size"@
                    ||| name == "op_code"@ || name == "data_size"@
                    ||| name == "desired_access"@ || name == "original_desired_access"@
                },
                FieldType::Bool => name == "remote_injection"@ || name == "data_truncated"@,
                FieldType::String => {
                    ||| name == "image_path"@ || name == "scope"@ || name == "op"@
                    ||| name == "key_path"@ || name == "value_name"@ || name == "value_type"@
                    ||| name == "data_preview_hex"@
                },
                FieldType::Float => false,
            }
        }),
{
}

/// Every event of the kernel driver names a process.
pub proof fn kernel_events_name_a_process(i: int)
    requires
        0 <= i < kernel_events().len(),
    ensures
        ({
            let fields = kernel_events()[i].1;
            ||| fields.contains(("pid"@, FieldType::Int))
            ||| fields.contains(("source_pid"@, FieldType::Int)) && fields.contains(
                ("target_pid"@, FieldType::Int),
            )
        }),
{
    let fields = kernel_events()[i].1;
    if i == 6 {
        assert(fields[0] == ("source_pid"@, FieldType::Int));
        assert(fields[1] == ("target_pid"@, FieldType::Int));
    } else {
        assert(fields[0] == ("pid"@, FieldType::Int));
    }
}

} // verus!

//! Registry of declared fields, for validation only.
//!
//! The engine matches fields dynamically and needs no schema. The registry lets
//! a caller check the field paths of loaded rules, and warn of a likely typo.

use vstd::hash_map::StringHashMap;
use vstd::prelude::*;

verus! {

/// The type of a declared field.
#[derive(Debug, Clone, Copy, PartialEq, Eq, Structural)]
pub enum FieldType {
    Int,
    Float,
    String,
    Bool,
}

/// A declared field: its name and its type.
#[derive(Debug)]
pub struct FieldSchema {
    pub name: String,
    pub field_type: FieldType,
}

/// A declared kind of event and its fields.
#[derive(Debug)]
pub struct EventSchema {
    pub name: String,
    pub fields: Vec<FieldSchema>,
}

/// All that one module declares.
#[derive(Debug)]
pub struct SchemaDeclaration {
    pub module: String,
    pub events: Vec<EventSchema>,
}

/// The name and the type of a declared field.
pub type DeclaredField = (Seq<char>, FieldType);

/// The name of a declared kind of event, and its fields.
pub type DeclaredEvent = (Seq<char>, Seq<DeclaredField>);

/// The declared fields of a kind of event, by name.
pub type FieldTypes = Map<Seq<char>, FieldType>;

/// The declared kinds of events of a module, by name.
pub type EventTypes = Map<Seq<char>, FieldTypes>;

impl DeepView for FieldSchema {
    type V = DeclaredField;

    open spec fn deep_view(&self) -> DeclaredField {
        (self.name@, self.field_type)
    }
}

impl DeepView for EventSchema {
    type V = DeclaredEvent;

    open spec fn deep_view(&self) -> DeclaredEvent {
        (self.name@, self.fields.deep_view())
    }
}

impl DeepView for SchemaDeclaration {
    type V = (Seq<char>, Seq<DeclaredEvent>);

    open spec fn deep_view(&self) -> (Seq<char>, Seq<DeclaredEvent>) {
        (self.module@, self.events.deep_view())
    }
}

impl Clone for FieldSchema {
    fn clone(&self) -> (r: FieldSchema)
        ensures
            r.deep_view() == self.deep_view(),
    {
        FieldSchema { name: self.name.clone(), field_type: self.field_type }
    }
}

impl Clone for EventSchema {
    fn clone(&self) -> (r: EventSchema)
        ensures
            r.deep_view() == self.deep_view(),
    {
        let fields = self.fields.clone();
        assert(fields.deep_view() =~= self.fields.deep_view());
        EventSchema { name: self.name.clone(), fields }
    }
}

impl Clone for SchemaDeclaration {
    fn clone(&self) -> (r: SchemaDeclaration)
        ensures
            r.deep_view() == self.deep_view(),
    {
        let events = self.events.clone();
        assert(events.deep_view() =~= self.events.deep_view());
        SchemaDeclaration { module: self.module.clone(), events }
    }
}

/// The fields of a list, by name; of two with one name, the later.
pub open spec fn field_types(fields: Seq<DeclaredField>) -> FieldTypes
    decreases fields.len(),
{
    if fields.len() == 0 {
        Map::empty()
    } else {
        field_types(fields.drop_last()).insert(fields.last().0, fields.last().1)
    }
}

/// The kinds of events of a list, by name; of two with one name, the later.
pub open spec fn event_types(events: Seq<DeclaredEvent>) -> EventTypes
    decreases events.len(),
{
    if events.len() == 0 {
        Map::empty()
    } else {
        event_types(events.drop_last()).insert(events.last().0, field_types(events.last().1))
    }
}

fn field_table(fields: &Vec<FieldSchema>) -> (m: StringHashMap<FieldType>)
    ensures
        m@ == field_types(fields.deep_view()),
{
    let mut m: StringHashMap<FieldType> = StringHashMap::new();
    let mut i: usize = 0;
    while i < fields.len()
        invariant
            i <= fields@.len(),
            m@ == field_types(fields.deep_view().take(i as int)),
        decreases fields@.len() - i,
    {
        m.insert(fields[i].name.clone(), fields[i].field_type);
        proof {
            let d = fields.deep_view();
            assert(d.take(i + 1).drop_last() =~= d.take(i as int));
            assert(d.take(i + 1).last() == fields@[i as int].deep_view());
        }
        i += 1;
    }
    assert(fields.deep_view().take(fields@.len() as int) =~= fields.deep_view());
    m
}

/// The declared fields, by module, kind of event and name.
pub struct SchemaRegistry {
    inner: StringHashMap<StringHashMap<StringHashMap<FieldType>>>,
}

impl View for SchemaRegistry {
    type V = Map<Seq<char>, EventTypes>;

    closed spec fn view(&self) -> Map<Seq<char>, EventTypes> {
        self.inner@.map_values(
            |events: StringHashMap<StringHashMap<FieldType>>|
                events@.map_values(|fields: StringHashMap<FieldType>| fields@),
        )
    }
}

impl Default for SchemaRegistry {
    fn default() -> (r: SchemaRegistry)
        ensures
            r@ == Map::<Seq<char>, EventTypes>::empty(),
    {
        SchemaRegistry::new()
    }
}

impl SchemaRegistry {
    pub fn new() -> (r: SchemaRegistry)
        ensures
            r@ == Map::<Seq<char>, EventTypes>::empty(),
    {
        let r = SchemaRegistry { inner: StringHashMap::new() };
        assert(r@ =~= Map::<Seq<char>, EventTypes>::empty());
        r
    }

    /// Declares a module, in place of what was declared of it.
    pub fn register(&mut self, decl: SchemaDeclaration)
        ensures
            final(self)@ == old(self)@.insert(decl.module@, event_types(decl.events.deep_view())),
    {
        let events = decl.events;
        let mut table: StringHashMap<StringHashMap<FieldType>> = StringHashMap::new();
        let ghost plain = |m: StringHashMap<FieldType>| m@;
        let mut i: usize = 0;
        assert(table@.map_values(plain) =~= Map::<Seq<char>, FieldTypes>::empty());
        while i < events.len()
            invariant
                i <= events@.len(),
                plain == (|m: StringHashMap<FieldType>| m@),
                table@.map_values(plain) == event_types(events.deep_view().take(i as int)),
            decreases events@.len() - i,
        {
            let ghost before = table@;
            let fields = field_table(&events[i].fields);
            table.insert(events[i].name.clone(), fields);
            proof {
                let d = events.deep_view();
                assert(d.take(i + 1).drop_last() =~= d.take(i as int));
                assert(d.take(i + 1).last() == events@[i as int].deep_view());
                assert(table@.map_values(plain) =~= before.map_values(plain).insert(
                    events@[i as int].name@,
                    fields@,
                ));
            }
            i += 1;
        }
        assert(events.deep_view().take(events@.len() as int) =~= events.deep_view());
        self.inner.insert(decl.module, table);
        proof {
            assert(self@ =~= old(self)@.insert(decl.module@, event_types(events.deep_view())));
        }
    }

    /// Declares the modules one after the other.
    pub fn register_all(&mut self, decls: Vec<SchemaDeclaration>)
        ensures
            final(self)@ == registered(old(self)@, decls.deep_view()),
    {
        let mut i: usize = 0;
        assert(decls.deep_view().take(0).len() == 0);
        while i < decls.len()
            invariant
                i <= decls@.len(),
                self@ == registered(old(self)@, decls.deep_view().take(i as int)),
            decreases decls@.len() - i,
        {
            self.register(decls[i].clone());
            proof {
                let d = decls.deep_view();
                assert(d.take(i + 1).drop_last() =~= d.take(i as int));
                assert(d.take(i + 1).last() == decls@[i as int].deep_view());
            }
            i += 1;
        }
        assert(decls.deep_view().take(decls@.len() as int) =~= decls.deep_view());
    }

    /// Whether nothing has been declared.
    pub fn is_empty(&self) -> (r: bool)
        ensures
            r == (self@ == Map::<Seq<char>, EventTypes>::empty()),
    {
        let r = self.inner.is_empty();
        proof {
            if r {
                assert(self@ =~= Map::<Seq<char>, EventTypes>::empty());
            } else {
                let k = choose|k: Seq<char>| self.inner@.contains_key(k);
                assert(self@.contains_key(k));
            }
        }
        r
    }

    /// The declared type of a field, where it was declared.
    pub fn validate_field(&self, module: &str, event_type: &str, field: &str) -> (r: Option<
        FieldType,
    >)
        ensures
            r == declared(self@, module@, event_type@, field@),
    {
        match self.inner.get(module) {
            None => None,
            Some(events) => match events.get(event_type) {
                None => None,
                Some(fields) => match fields.get(field) {
                    None => None,
                    Some(t) => Some(*t),
                },
            },
        }
    }
}

/// What a registry holds after a list of declarations.
pub open spec fn registered(
    before: Map<Seq<char>, EventTypes>,
    decls: Seq<(Seq<char>, Seq<DeclaredEvent>)>,
) -> Map<Seq<char>, EventTypes>
    decreases decls.len(),
{
    if decls.len() == 0 {
        before
    } else {
        registered(before, decls.drop_last()).insert(decls.last().0, event_types(decls.last().1))
    }
}

/// The type that a registry holds of a field.
pub open spec fn declared(
    registry: Map<Seq<char>, EventTypes>,
    module: Seq<char>,
    event_type: Seq<char>,
    field: Seq<char>,
) -> Option<FieldType> {
    if registry.contains_key(module) && registry[module].contains_key(event_type)
        && registry[module][event_type].contains_key(field) {
        Some(registry[module][event_type][field])
    } else {
        None
    }
}

fn field(name: &str, field_type: FieldType) -> (r: FieldSchema)
    ensures
        r.deep_view() == (name@, field_type),
{
    FieldSchema { name: name.to_string(), field_type }
}

fn event(name: &str, fields: Vec<FieldSchema>) -> (r: EventSchema)
    ensures
        r.deep_view() == (name@, fields.deep_view()),
{
    EventSchema { name: name.to_string(), fields }
}

/// The events of the kernel driver and their fields.
pub open spec fn kernel_events() -> Seq<DeclaredEvent> {
    seq![
        (
            "process_create"@,
            seq![
                ("pid"@, FieldType::Int),
                ("parent_pid"@, FieldType::Int),
                ("creating_pid"@, FieldType::Int),
                ("image_path"@, FieldType::String),
            ],
        ),
        ("process_terminate"@, seq![("pid"@, FieldType::Int)]),
        (
            "module_load"@,
            seq![
                ("pid"@, FieldType::Int),
                ("scope"@, FieldType::String),
                ("image_base"@, FieldType::Int),
                ("image_size"@, FieldType::Int),
                ("image_path"@, FieldType::String),
            ],
        ),
        (
            "registry_write"@,
            seq![
                ("pid"@, FieldType::Int),
                ("op"@, FieldType::String),
                ("op_code"@, FieldType::Int),
                ("key_path"@, FieldType::String),
                ("value_name"@, FieldType::String),
                ("value_type"@, FieldType::String),
                ("data_size"@, FieldType::Int),
                ("data_preview_hex"@, FieldType::String),
                ("data_truncated"@, FieldType::Bool),
            ],
        ),
        (
            "thread_create"@,
            seq![
                ("pid"@, FieldType::Int),
                ("tid"@, FieldType::Int),
                ("creating_pid"@, FieldType::Int),
                ("remote_injection"@, FieldType::Bool),
            ],
        ),
        ("thread_exit"@, seq![("pid"@, FieldType::Int), ("tid"@, FieldType::Int)]),
        (
            "process_handle_access"@,
            seq![
                ("source_pid"@, FieldType::Int),
                ("target_pid"@, FieldType::Int),
                ("desired_access"@, FieldType::Int),
                ("original_desired_access"@, FieldType::Int),
                ("op"@, FieldType::String),
            ],
        ),
    ]
}

/// Built-in schema of the events of the kernel driver. Plugins extend it with
/// declarations of their own.
pub fn builtin_kernel_schema() -> (r: SchemaDeclaration)
    ensures
        r.deep_view() == ("kernel_callback"@, kernel_events()),
{
    let process_create: Vec<FieldSchema> = vec![
        field("pid", FieldType::Int),
        field("parent_pid", FieldType::Int),
        field("creating_pid", FieldType::Int),
        field("image_path", FieldType::String),
    ];
    assert(process_create.deep_view() =~= kernel_events()[0].1);
    let process_terminate: Vec<FieldSchema> = vec![field("pid", FieldType::Int)];
    assert(process_terminate.deep_view() =~= kernel_events()[1].1);
    let module_load: Vec<FieldSchema> = vec![
        field("pid", FieldType::Int),
        field("scope", FieldType::String),
        field("image_base", FieldType::Int),
        field("image_size", FieldType::Int),
        field("image_path", FieldType::String),
    ];
    assert(module_load.deep_view() =~= kernel_events()[2].1);
    let registry_write: Vec<FieldSchema> = vec![
        field("pid", FieldType::Int),
        field("op", FieldType::String),
        field("op_code", FieldType::Int),
        field("key_path", FieldType::String),
        field("value_name", FieldType::String),
        field("value_type", FieldType::String),
        field("data_size", FieldType::Int),
        field("data_preview_hex", FieldType::String),
        field("data_truncated", FieldType::Bool),
    ];
    assert(registry_write.deep_view() =~= kernel_events()[3].1);
    let thread_create: Vec<FieldSchema> = vec![
        field("pid", FieldType::Int),
        field("tid", FieldType::Int),
        field("creating_pid", FieldType::Int),
        field("remote_injection", FieldType::Bool),
    ];
    assert(thread_create.deep_view() =~= kernel_events()[4].1);
    let thread_exit: Vec<FieldSchema> = vec![
        field("pid", FieldType::Int),
        field("tid", FieldType::Int),
    ];
    assert(thread_exit.deep_view() =~= kernel_events()[5].1);
    let process_handle_access: Vec<FieldSchema> = vec![
        field("source_pid", FieldType::Int),
        field("target_pid", FieldType::Int),
        field("desired_access", FieldType::Int),
        field("original_desired_access", FieldType::Int),
        field("op", FieldType::String),
    ];
    assert(process_handle_access.deep_view() =~= kernel_events()[6].1);
    let events: Vec<EventSchema> = vec![
        event("process_create", process_create),
        event("process_terminate", process_terminate),
        event("module_load", module_load),
        event("registry_write", registry_write),
        event("thread_create", thread_create),
        event("thread_exit", thread_exit),
        event("process_handle_access", process_handle_access),
    ];
    assert(events.deep_view() =~= kernel_events());
    SchemaDeclaration { module: "kernel_callback".to_string(), events }
}

/// The last of the items of a list that bear a name.
pub open spec fn last_named<T>(items: Seq<(Seq<char>, T)>, name: Seq<char>) -> Option<T>
    decreases items.len(),
{
    if items.len() == 0 {
        None
    } else if items.last().0 == name {
        Some(items.last().1)
    } else {
        last_named(items.drop_last(), name)
    }
}

proof fn field_types_by_name(fields: Seq<DeclaredField>, name: Seq<char>)
    ensures
        field_types(fields).contains_key(name) <==> last_named(fields, name) is Some,
        last_named(fields, name) matches Some(t) ==> field_types(fields)[name] == t,
    decreases fields.len(),
{
    if fields.len() > 0 {
        field_types_by_name(fields.drop_last(), name);
    }
}

proof fn event_types_by_name(events: Seq<DeclaredEvent>, name: Seq<char>)
    ensures
        event_types(events).contains_key(name) <==> last_named(events, name) is Some,
        last_named(events, name) matches Some(f) ==> event_types(events)[name] == field_types(f),
    decreases events.len(),
{
    if events.len() > 0 {
        event_types_by_name(events.drop_last(), name);
    }
}

/// After a module was declared, a field of it has exactly the type that the
/// declaration gives it (the last one, where names repeat), and no other field
/// of the module has any.
pub proof fn declared_is_validated(
    before: Map<Seq<char>, EventTypes>,
    module: Seq<char>,
    events: Seq<DeclaredEvent>,
    event_type: Seq<char>,
    field: Seq<char>,
)
    ensures
        declared(before.insert(module, event_types(events)), module, event_type, field) == (
        match last_named(events, event_type) {
            Some(fields) => last_named(fields, field),
            None => None,
        }),
{
    event_types_by_name(events, event_type);
    if let Some(fields) = last_named(events, event_type) {
        field_types_by_name(fields, field);
    }
}

/// Declaring a module changes nothing of any other.
pub proof fn other_modules_are_kept(
    before: Map<Seq<char>, EventTypes>,
    module: Seq<char>,
    events: EventTypes,
    other: Seq<char>,
    event_type: Seq<char>,
    field: Seq<char>,
)
    requires
        other != module,
    ensures
        declared(before.insert(module, events), other, event_type, field) == declared(
            before,
            other,
            event_type,
            field,
        ),
{
}

} // verus!

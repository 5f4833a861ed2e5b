//! Dynamic events: what a rule is evaluated against.
//!
//! The engine does not know the field names of any module. A [`LogEvent`]
//! carries a `module` / `event_type` pair and a free-form map of fields; rules
//! find fields by name alone.

use crate::text::{occurs, starts, str_contains, str_eq, str_starts};
use crate::time::Timestamp;
use vstd::prelude::*;
use vstd::std_specs::cmp::{PartialEqIs, PartialEqSpec, PartialOrdIs, PartialOrdSpec};

verus! {

/// A floating-point number in the IEEE 754 binary64 format, by its bit pattern.
#[derive(Debug, Clone, Copy)]
pub struct Float {
    pub bits: u64,
}

impl Float {
    /// The bits below the sign.
    pub open spec fn magnitude(self) -> int {
        if self.bits >= 0x8000_0000_0000_0000 {
            self.bits - 0x8000_0000_0000_0000
        } else {
            self.bits as int
        }
    }

    /// Not a number: all bits of the exponent set, and some bit of the fraction.
    pub open spec fn is_nan(self) -> bool {
        self.magnitude() > 0x7ff0_0000_0000_0000
    }

    /// The place of a number among all numbers; the two zeros share one place.
    pub open spec fn rank(self) -> int {
        if self.bits >= 0x8000_0000_0000_0000 {
            -self.magnitude()
        } else {
            self.magnitude()
        }
    }

    fn key(&self) -> (r: Option<i64>)
        ensures
            r is None <==> self.is_nan(),
            r matches Some(k) ==> k == self.rank(),
    {
        let negative: bool = self.bits >= 0x8000_0000_0000_0000;
        let m: u64 = if negative {
            self.bits - 0x8000_0000_0000_0000
        } else {
            self.bits
        };
        if m > 0x7ff0_0000_0000_0000 {
            None
        } else if negative {
            Some(-(m as i64))
        } else {
            Some(m as i64)
        }
    }
}

impl PartialEq for Float {
    fn eq(&self, other: &Float) -> (r: bool) {
        match (self.key(), other.key()) {
            (Some(a), Some(b)) => a == b,
            _ => false,
        }
    }
}

impl vstd::std_specs::cmp::PartialEqSpecImpl for Float {
    open spec fn obeys_eq_spec() -> bool {
        true
    }

    open spec fn eq_spec(&self, other: &Float) -> bool {
        !self.is_nan() && !other.is_nan() && self.rank() == other.rank()
    }
}

impl PartialOrd for Float {
    fn partial_cmp(&self, other: &Float) -> (r: Option<core::cmp::Ordering>) {
        match (self.key(), other.key()) {
            (Some(a), Some(b)) => if a < b {
                Some(core::cmp::Ordering::Less)
            } else if a == b {
                Some(core::cmp::Ordering::Equal)
            } else {
                Some(core::cmp::Ordering::Greater)
            },
            _ => None,
        }
    }
}

impl vstd::std_specs::cmp::PartialOrdSpecImpl for Float {
    open spec fn obeys_partial_cmp_spec() -> bool {
        true
    }

    open spec fn partial_cmp_spec(&self, other: &Float) -> Option<core::cmp::Ordering> {
        if self.is_nan() || other.is_nan() {
            None
        } else if self.rank() < other.rank() {
            Some(core::cmp::Ordering::Less)
        } else if self.rank() == other.rank() {
            Some(core::cmp::Ordering::Equal)
        } else {
            Some(core::cmp::Ordering::Greater)
        }
    }
}

/// Comparison operator of a rule expression.
#[derive(Debug, Clone, Copy, PartialEq, Eq, Structural)]
pub enum CmpOp {
    Eq,
    Ne,
    Lt,
    Gt,
    Le,
    Ge,
    Contains,
    StartsWith,
}

impl CmpOp {
    /// What the operator says of two ordered values.
    pub open spec fn ord_holds<T: PartialOrd>(self, l: &T, r: &T) -> bool {
        match self {
            CmpOp::Eq => l.is_eq(r),
            CmpOp::Ne => l.is_ne(r),
            CmpOp::Lt => l.is_lt(r),
            CmpOp::Gt => l.is_gt(r),
            CmpOp::Le => l.is_le(r),
            CmpOp::Ge => l.is_ge(r),
            _ => false,
        }
    }

    pub fn apply_ord<T: PartialOrd>(&self, l: &T, r: &T) -> (b: bool)
        ensures
            T::obeys_eq_spec() && T::obeys_partial_cmp_spec() ==> b == self.ord_holds(l, r),
            self is Contains || self is StartsWith ==> !b,
    {
        match self {
            CmpOp::Eq => l == r,
            CmpOp::Ne => l != r,
            CmpOp::Lt => l < r,
            CmpOp::Gt => l > r,
            CmpOp::Le => l <= r,
            CmpOp::Ge => l >= r,
            _ => false,
        }
    }

    /// What the operator says of two values that can only be equal or not.
    pub open spec fn eq_holds<T: PartialEq>(self, l: &T, r: &T) -> bool {
        match self {
            CmpOp::Eq => l.is_eq(r),
            CmpOp::Ne => l.is_ne(r),
            _ => false,
        }
    }

    pub fn apply_eq<T: PartialEq>(&self, l: &T, r: &T) -> (b: bool)
        ensures
            T::obeys_eq_spec() ==> b == self.eq_holds(l, r),
            !(self is Eq || self is Ne) ==> !b,
    {
        match self {
            CmpOp::Eq => l == r,
            CmpOp::Ne => l != r,
            _ => false,
        }
    }

    /// What the operator says of two texts.
    pub open spec fn text_holds(self, l: Seq<char>, r: Seq<char>) -> bool {
        match self {
            CmpOp::Eq => l == r,
            CmpOp::Ne => l != r,
            CmpOp::Contains => occurs(l, r),
            CmpOp::StartsWith => starts(l, r),
            _ => false,
        }
    }

    pub fn apply_str(&self, l: &str, r: &str) -> (b: bool)
        ensures
            b == self.text_holds(l@, r@),
    {
        match self {
            CmpOp::Eq => str_eq(l, r),
            CmpOp::Ne => !str_eq(l, r),
            CmpOp::Contains => str_contains(l, r),
            CmpOp::StartsWith => str_starts(l, r),
            _ => false,
        }
    }
}

/// The value of a field or of a rule literal, with text as its characters.
pub enum Scalar {
    Int(i64),
    Float(Float),
    Str(Seq<char>),
    Bool(bool),
}

impl Scalar {
    /// What an operator says of a field value and a rule literal. Values of two
    /// different types satisfy no operator.
    pub open spec fn satisfies(self, op: CmpOp, literal: Scalar) -> bool {
        match (self, literal) {
            (Scalar::Int(l), Scalar::Int(r)) => op.ord_holds(&l, &r),
            (Scalar::Float(l), Scalar::Float(r)) => op.ord_holds(&l, &r),
            (Scalar::Str(l), Scalar::Str(r)) => op.text_holds(l, r),
            (Scalar::Bool(l), Scalar::Bool(r)) => op.eq_holds(&l, &r),
            _ => false,
        }
    }
}

/// The two values have one type.
pub open spec fn same_type(a: Scalar, b: Scalar) -> bool {
    match (a, b) {
        (Scalar::Int(_), Scalar::Int(_)) => true,
        (Scalar::Float(_), Scalar::Float(_)) => true,
        (Scalar::Str(_), Scalar::Str(_)) => true,
        (Scalar::Bool(_), Scalar::Bool(_)) => true,
        _ => false,
    }
}

/// A rule literal of another type than the field satisfies no operator, not even
/// `!=`.
pub proof fn mismatched_types_never_compare(field: Scalar, literal: Scalar, op: CmpOp)
    requires
        !same_type(field, literal),
    ensures
        !field.satisfies(op, literal),
{
}

/// Typed value of an event field.
#[derive(Debug, PartialEq)]
pub enum FieldValue {
    Int(i64),
    Float(Float),
    Str(String),
    Bool(bool),
}

impl DeepView for FieldValue {
    type V = Scalar;

    open spec fn deep_view(&self) -> Scalar {
        match self {
            FieldValue::Int(n) => Scalar::Int(*n),
            FieldValue::Float(x) => Scalar::Float(*x),
            FieldValue::Str(s) => Scalar::Str(s@),
            FieldValue::Bool(b) => Scalar::Bool(*b),
        }
    }
}

impl Clone for FieldValue {
    fn clone(&self) -> (r: FieldValue)
        ensures
            r.deep_view() == self.deep_view(),
    {
        match self {
            FieldValue::Int(n) => FieldValue::Int(*n),
            FieldValue::Float(x) => FieldValue::Float(*x),
            FieldValue::Str(s) => FieldValue::Str(s.clone()),
            FieldValue::Bool(b) => FieldValue::Bool(*b),
        }
    }
}

impl FieldValue {
    /// The comparison of the rule engine. Mismatched types compare as `false`:
    /// a typo in a rule is never an error at run time.
    pub fn compare(&self, op: &CmpOp, rhs: &RuleValue) -> (b: bool)
        ensures
            b == self.deep_view().satisfies(*op, rhs.deep_view()),
    {
        match (self, rhs) {
            (FieldValue::Int(l), RuleValue::Int(r)) => op.apply_ord(l, r),
            (FieldValue::Float(l), RuleValue::Float(r)) => op.apply_ord(l, r),
            (FieldValue::Str(l), RuleValue::Str(r)) => op.apply_str(l.as_str(), r.as_str()),
            (FieldValue::Bool(l), RuleValue::Bool(r)) => op.apply_eq(l, r),
            _ => false,
        }
    }
}

/// Literal value on the rule side: what an event field is compared against.
#[derive(Debug, PartialEq)]
pub enum RuleValue {
    Int(i64),
    Float(Float),
    Str(String),
    Bool(bool),
}

impl DeepView for RuleValue {
    type V = Scalar;

    open spec fn deep_view(&self) -> Scalar {
        match self {
            RuleValue::Int(n) => Scalar::Int(*n),
            RuleValue::Float(x) => Scalar::Float(*x),
            RuleValue::Str(s) => Scalar::Str(s@),
            RuleValue::Bool(b) => Scalar::Bool(*b),
        }
    }
}

impl Clone for RuleValue {
    fn clone(&self) -> (r: RuleValue)
        ensures
            r.deep_view() == self.deep_view(),
    {
        match self {
            RuleValue::Int(n) => RuleValue::Int(*n),
            RuleValue::Float(x) => RuleValue::Float(*x),
            RuleValue::Str(s) => RuleValue::Str(s.clone()),
            RuleValue::Bool(b) => RuleValue::Bool(*b),
        }
    }
}

/// The entries are those of the map, each name once.
pub open spec fn lists(entries: Seq<(Seq<char>, Scalar)>, m: Map<Seq<char>, Scalar>) -> bool {
    &&& forall|i: int, j: int|
        0 <= i < j < entries.len() ==> (#[trigger] entries[i]).0 != (#[trigger] entries[j]).0
    &&& forall|i: int|
        0 <= i < entries.len() ==> m.contains_key((#[trigger] entries[i]).0) && m[entries[i].0]
            == entries[i].1
    &&& forall|k: Seq<char>| #[trigger]
        m.contains_key(k) ==> exists|i: int| 0 <= i < entries.len() && (#[trigger] entries[i]).0
            == k
}

/// As many entries as the map has names.
proof fn listed_is_counted(entries: Seq<(Seq<char>, Scalar)>, m: Map<Seq<char>, Scalar>)
    requires
        lists(entries, m),
    ensures
        m.dom().finite(),
        m.dom().len() == entries.len(),
{
    let names = entries.map_values(|e: (Seq<char>, Scalar)| e.0);
    assert(names.no_duplicates()) by {
        assert forall|i: int, j: int| 0 <= i < j < names.len() implies names[i] != names[j] by {
            assert(entries[i].0 != entries[j].0);
        }
    }
    names.unique_seq_to_set();
    assert forall|k: Seq<char>| m.dom().contains(k) <==> names.to_set().contains(k) by {
        if m.contains_key(k) {
            let i = choose|i: int| 0 <= i < entries.len() && (#[trigger] entries[i]).0 == k;
            assert(names[i] == k);
        }
        if names.contains(k) {
            let i = choose|i: int| 0 <= i < names.len() && names[i] == k;
            assert(entries[i].0 == k);
        }
    }
    assert(m.dom() =~= names.to_set());
}

/// The named fields of an event. No name occurs twice.
#[derive(Debug)]
pub struct FieldMap {
    entries: Vec<(String, FieldValue)>,
}

impl View for FieldMap {
    type V = Map<Seq<char>, Scalar>;

    closed spec fn view(&self) -> Map<Seq<char>, Scalar> {
        Map::new(
            |k: Seq<char>| exists|i: int| 0 <= i < self.entries@.len() && #[trigger] self.entries@[i].0@ == k,
            |k: Seq<char>| self.entries@[choose|i: int| 0 <= i < self.entries@.len() && #[trigger] self.entries@[i].0@ == k].1.deep_view(),
        )
    }
}

impl FieldMap {
    #[verifier::type_invariant]
    spec fn names_differ(&self) -> bool {
        forall|i: int, j: int|
            0 <= i < j < self.entries@.len() ==> #[trigger] self.entries@[i].0@
                != #[trigger] self.entries@[j].0@
    }

    pub fn new() -> (m: FieldMap)
        ensures
            m@ == Map::<Seq<char>, Scalar>::empty(),
    {
        let m = FieldMap { entries: Vec::new() };
        assert(m@ =~= Map::<Seq<char>, Scalar>::empty());
        m
    }

    /// The fields, each with its name and its value. Their order means nothing.
    pub fn entries(&self) -> (r: &Vec<(String, FieldValue)>)
        ensures
            lists(r.deep_view(), self@),
    {
        proof {
            use_type_invariant(self);
            let all = self.entries.deep_view();
            assert forall|i: int, j: int| 0 <= i < j < all.len() implies (#[trigger] all[i]).0 != (
            #[trigger] all[j]).0 by {
                assert(self.entries@[i].0@ != self.entries@[j].0@);
            }
            assert forall|i: int| 0 <= i < all.len() implies self@.contains_key(
                (#[trigger] all[i]).0,
            ) && self@[all[i].0] == all[i].1 by {
                let name = self.entries@[i].0@;
                assert(all[i].0 == name);
                let k = choose|k: int|
                    0 <= k < self.entries@.len() && #[trigger] self.entries@[k].0@ == name;
                assert(k == i);
            }
            assert forall|k: Seq<char>| #[trigger] self@.contains_key(k) implies exists|i: int|
                0 <= i < all.len() && (#[trigger] all[i]).0 == k by {
                let i = choose|i: int|
                    0 <= i < self.entries@.len() && #[trigger] self.entries@[i].0@ == k;
                assert(all[i].0 == k);
            }
        }
        &self.entries
    }

    /// How many fields there are.
    pub fn len(&self) -> (n: usize)
        ensures
            self@.dom().finite(),
            n == self@.dom().len(),
    {
        let all = self.entries();
        proof {
            listed_is_counted(all.deep_view(), self@);
        }
        all.len()
    }

    /// The value of a field.
    pub fn get(&self, name: &str) -> (r: Option<&FieldValue>)
        ensures
            match r {
                Some(v) => self@.contains_key(name@) && v.deep_view() == self@[name@],
                None => !self@.contains_key(name@),
            },
    {
        proof {
            use_type_invariant(self);
        }
        let mut i: usize = 0;
        while i < self.entries.len()
            invariant
                i <= self.entries@.len(),
                self.names_differ(),
                forall|j: int| 0 <= j < i ==> #[trigger] self.entries@[j].0@ != name@,
            decreases self.entries@.len() - i,
        {
            if str_eq(self.entries[i].0.as_str(), name) {
                assert(self.entries@[i as int].0@ == name@);
                return Some(&self.entries[i].1);
            }
            i += 1;
        }
        None
    }

    /// Gives a field a value, in place of the one that it had.
    pub fn insert(&mut self, name: String, value: FieldValue)
        ensures
            final(self)@ == old(self)@.insert(name@, value.deep_view()),
    {
        proof {
            use_type_invariant(&*self);
        }
        let mut entries: Vec<(String, FieldValue)> = Vec::new();
        std::mem::swap(&mut entries, &mut self.entries);
        let ghost before = entries@;
        let n: usize = entries.len();
        let mut i: usize = 0;
        while i < n && !str_eq(entries[i].0.as_str(), name.as_str())
            invariant
                i <= n,
                n == entries@.len(),
                forall|j: int| 0 <= j < i ==> #[trigger] entries@[j].0@ != name@,
            decreases n - i,
        {
            i += 1;
        }
        if i < n {
            entries[i] = (name, value);
        } else {
            entries.push((name, value));
        }
        proof {
            assert forall|a: int, b: int| 0 <= a < b < entries@.len() implies #[trigger] entries@[a].0@
                != #[trigger] entries@[b].0@ by {
                if a < n {
                    assert(before[a].0@ == entries@[a].0@ || a == i);
                }
                if b < n {
                    assert(before[b].0@ == entries@[b].0@ || b == i);
                }
            }
        }
        self.entries = entries;
        proof {
            let k = name@;
            assert(self.entries@[i as int].0@ == k);
            assert forall|q: Seq<char>| old(self)@.contains_key(q) implies #[trigger] self@.contains_key(q) by {
                let a = choose|a: int| 0 <= a < before.len() && #[trigger] before[a].0@ == q;
                assert(self.entries@[a].0@ == q);
            }
            assert forall|q: Seq<char>| #[trigger] self@.contains_key(q) && q != k implies
                old(self)@.contains_key(q) && old(self)@[q] == self@[q] by {
                let a = choose|a: int| 0 <= a < self.entries@.len() && #[trigger] self.entries@[a].0@ == q;
                assert(before[a].0@ == q);
                let b = choose|b: int| 0 <= b < before.len() && #[trigger] before[b].0@ == q;
                assert(a == b);
            }
            assert(self@ =~= old(self)@.insert(k, value.deep_view()));
        }
    }
}

impl Clone for FieldMap {
    fn clone(&self) -> (r: FieldMap)
        ensures
            r@ == self@,
    {
        proof {
            use_type_invariant(self);
        }
        let mut entries: Vec<(String, FieldValue)> = Vec::new();
        let mut i: usize = 0;
        while i < self.entries.len()
            invariant
                i <= self.entries@.len(),
                entries@.len() == i,
                forall|j: int|
                    0 <= j < i ==> (#[trigger] entries@[j]).0@ == self.entries@[j].0@
                        && entries@[j].1.deep_view() == self.entries@[j].1.deep_view(),
            decreases self.entries@.len() - i,
        {
            entries.push((self.entries[i].0.clone(), self.entries[i].1.clone()));
            i += 1;
        }
        let r = FieldMap { entries };
        proof {
            assert forall|q: Seq<char>| #[trigger] self@.contains_key(q) implies r@.contains_key(q)
                && r@[q] == self@[q] by {
                let a = choose|a: int|
                    0 <= a < self.entries@.len() && #[trigger] self.entries@[a].0@ == q;
                assert(r.entries@[a].0@ == q);
                let b = choose|b: int|
                    0 <= b < r.entries@.len() && #[trigger] r.entries@[b].0@ == q;
                assert(self.entries@[b].0@ == q);
                assert(a == b);
            }
            assert forall|q: Seq<char>| #[trigger] r@.contains_key(q) implies self@.contains_key(
                q,
            ) by {
                let a = choose|a: int|
                    0 <= a < r.entries@.len() && #[trigger] r.entries@[a].0@ == q;
                assert(self.entries@[a].0@ == q);
            }
            assert(r@ =~= self@);
        }
        r
    }
}

/// What an event says: where it comes from, its fields, and when it came.
pub struct EventView {
    pub module: Seq<char>,
    pub event_type: Seq<char>,
    pub fields: Map<Seq<char>, Scalar>,
    pub timestamp: Timestamp,
}

/// A normalised event produced by any module.
#[derive(Debug)]
pub struct LogEvent {
    /// e.g. `"kernel_callback"`.
    pub module: String,
    /// e.g. `"process_create"`.
    pub event_type: String,
    /// e.g. `"pid" -> Int(4688)`.
    pub fields: FieldMap,
    /// Ingest time, used for temporal correlation windows.
    pub timestamp: Timestamp,
}

impl DeepView for LogEvent {
    type V = EventView;

    open spec fn deep_view(&self) -> EventView {
        EventView {
            module: self.module@,
            event_type: self.event_type@,
            fields: self.fields@,
            timestamp: self.timestamp,
        }
    }
}

impl Clone for LogEvent {
    fn clone(&self) -> (r: LogEvent)
        ensures
            r.deep_view() == self.deep_view(),
    {
        LogEvent {
            module: self.module.clone(),
            event_type: self.event_type.clone(),
            fields: self.fields.clone(),
            timestamp: self.timestamp,
        }
    }
}

impl LogEvent {
    pub fn get_field(&self, field: &str) -> (r: Option<&FieldValue>)
        ensures
            match r {
                Some(v) => self.fields@.contains_key(field@) && v.deep_view()
                    == self.fields@[field@],
                None => !self.fields@.contains_key(field@),
            },
    {
        self.fields.get(field)
    }
}

} // verus!

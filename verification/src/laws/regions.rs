//! Definition regions: a field flagged as a definition sets the region for all that
//! is visited through it, and for nothing else.
use vstd::prelude::*;

use crate::kind;
use crate::kind::DefRegionKind;
use crate::semantics;
use crate::semantics::Trip;
use crate::step;
use crate::step::{Answer, NativeWalker};
use crate::tree::{Content, Entry, Field, Value};

verus! {

/// Whether fields with these flags set a region of their own.
pub open spec fn defines(flags: i64) -> bool {
    flags & 4096 != 0 || flags & 16 != 0
}

/// Whether no field at or below the value sets a region.
pub open spec fn plain<E>(value: Value<E>) -> bool
    decreases value,
{
    match value.content {
        Content::Sequence { cells: Some(cells), .. } => forall|i: int|
            0 <= i < cells@.len() ==> plain(#[trigger] cells@[i]),
        Content::Mapping { entries, .. } => forall|i: int|
            0 <= i < entries@.len() ==> plain_entry(#[trigger] entries@[i]),
        Content::Object { fields: Some(fields) } => forall|i: int|
            0 <= i < fields@.len() ==> plain_field(#[trigger] fields@[i]),
        _ => true,
    }
}

pub open spec fn plain_entry<E>(entry: Entry<E>) -> bool
    decreases entry,
{
    &&& entry.key matches Ok(key) ==> plain(key)
    &&& entry.value matches Ok(value) ==> plain(value)
}

pub open spec fn plain_field<E>(field: Field<E>) -> bool
    decreases field,
{
    &&& !defines(field.flags)
    &&& field.getter matches Some(Ok(value)) ==> plain(value)
}

/// Whether all callbacks of a trip run in `region`.
pub open spec fn all_in<P, E>(trip: Trip<P, E>, region: DefRegionKind) -> bool {
    forall|i: int| 0 <= i < trip.calls.len() ==> (#[trigger] trip.calls[i]).region == region
}

proof fn lemma_plain_visit<P, E>(
    walker: NativeWalker,
    value: Value<E>,
    region: DefRegionKind,
    answers: Seq<Answer<P, E>>,
    from: nat,
)
    requires
        plain(value),
    ensures
        all_in(semantics::visit(walker, value, region, answers, from), region),
    decreases value, 1nat, 0nat,
{
    if value.type_index != 0 {
        if step::verdict(answers[from as int], value.type_index) is Ok {
            lemma_plain_children(walker, value, region, answers, from + 1);
        }
    }
}

proof fn lemma_plain_children<P, E>(
    walker: NativeWalker,
    value: Value<E>,
    region: DefRegionKind,
    answers: Seq<Answer<P, E>>,
    from: nat,
)
    requires
        plain(value),
    ensures
        all_in(semantics::children(walker, value, region, answers, from), region),
    decreases value, 0nat, 0nat,
{
    if value.type_index == 71 || value.type_index == 75 {
        if let Content::Sequence { cells: Some(cells), .. } = value.content {
            lemma_plain_cells(walker, cells@, 0, region, answers, from);
        }
    } else if value.type_index == 72 || value.type_index == 76 {
        if let Content::Mapping { entries, .. } = value.content {
            if value.type_index == 76 {
                lemma_plain_dict(walker, entries@, 0, region, answers, from);
            } else {
                lemma_plain_map(walker, entries@, 0, region, answers, from);
            }
        }
    } else if value.type_index >= 64 {
        if let Content::Object { fields: Some(fields) } = value.content {
            lemma_plain_fields(walker, fields@, 0, region, answers, from);
        }
    }
}

proof fn lemma_plain_cells<P, E>(
    walker: NativeWalker,
    cells: Seq<Value<E>>,
    i: nat,
    region: DefRegionKind,
    answers: Seq<Answer<P, E>>,
    from: nat,
)
    requires
        forall|j: int| 0 <= j < cells.len() ==> plain(#[trigger] cells[j]),
    ensures
        all_in(semantics::visit_cells(walker, cells, i, region, answers, from), region),
    decreases cells, 0nat, cells.len() - i,
{
    if i < cells.len() {
        let trip = semantics::visit::<P, E>(walker, cells[i as int], region, answers, from);
        lemma_plain_visit(walker, cells[i as int], region, answers, from);
        lemma_plain_cells(walker, cells, i + 1, region, answers, from + trip.calls.len());
    }
}

proof fn lemma_plain_pair<P, E>(
    walker: NativeWalker,
    entries: Seq<Entry<E>>,
    i: nat,
    region: DefRegionKind,
    answers: Seq<Answer<P, E>>,
    from: nat,
)
    requires
        i < entries.len(),
        plain_entry(entries[i as int]),
        entries[i as int].key is Ok,
        entries[i as int].value is Ok,
    ensures
        ({
            let key = entries[i as int].key->Ok_0;
            let value = entries[i as int].value->Ok_0;
            let first = semantics::visit::<P, E>(walker, key, region, answers, from);
            let next = from + first.calls.len();
            &&& all_in(first, region)
            &&& all_in(semantics::visit::<P, E>(walker, value, region, answers, next), region)
        }),
    decreases entries, 0nat, 0nat,
{
    let entry = entries[i as int];
    let first = semantics::visit::<P, E>(walker, entry.key->Ok_0, region, answers, from);
    lemma_plain_visit(walker, entry.key->Ok_0, region, answers, from);
    lemma_plain_visit(
        walker,
        entry.value->Ok_0,
        region,
        answers,
        from + first.calls.len(),
    );
}

proof fn lemma_plain_dict<P, E>(
    walker: NativeWalker,
    entries: Seq<Entry<E>>,
    i: nat,
    region: DefRegionKind,
    answers: Seq<Answer<P, E>>,
    from: nat,
)
    requires
        forall|j: int| 0 <= j < entries.len() ==> plain_entry(#[trigger] entries[j]),
    ensures
        all_in(semantics::visit_dict(walker, entries, i, region, answers, from), region),
    decreases entries, 0nat, entries.len() - i,
{
    if i < entries.len() {
        let entry = entries[i as int];
        if entry.key is Ok && entry.value is Ok {
            lemma_plain_pair(walker, entries, i, region, answers, from);
            let first = semantics::visit::<P, E>(walker, entry.key->Ok_0, region, answers, from);
            let next = from + first.calls.len();
            let second = semantics::visit::<P, E>(
                walker,
                entry.value->Ok_0,
                region,
                answers,
                next,
            );
            lemma_plain_dict(
                walker,
                entries,
                i + 1,
                region,
                answers,
                next + second.calls.len(),
            );
        }
    }
}

proof fn lemma_plain_map<P, E>(
    walker: NativeWalker,
    entries: Seq<Entry<E>>,
    i: nat,
    region: DefRegionKind,
    answers: Seq<Answer<P, E>>,
    from: nat,
)
    requires
        forall|j: int| 0 <= j < entries.len() ==> plain_entry(#[trigger] entries[j]),
    ensures
        all_in(semantics::visit_map(walker, entries, i, region, answers, from), region),
    decreases entries, 0nat, entries.len() - i,
{
    if i < entries.len() {
        let entry = entries[i as int];
        if entry.key is Ok && entry.value is Ok {
            lemma_plain_pair(walker, entries, i, region, answers, from);
            let first = semantics::visit::<P, E>(walker, entry.key->Ok_0, region, answers, from);
            let next = from + first.calls.len();
            let second = semantics::visit::<P, E>(
                walker,
                entry.value->Ok_0,
                region,
                answers,
                next,
            );
            lemma_plain_map(walker, entries, i + 1, region, answers, next + second.calls.len());
        }
    }
}

proof fn lemma_plain_fields<P, E>(
    walker: NativeWalker,
    fields: Seq<Field<E>>,
    i: nat,
    region: DefRegionKind,
    answers: Seq<Answer<P, E>>,
    from: nat,
)
    requires
        forall|j: int| i <= j < fields.len() ==> plain_field(#[trigger] fields[j]),
    ensures
        all_in(semantics::visit_fields(walker, fields, i, region, answers, from), region),
    decreases fields, 0nat, fields.len() - i,
{
    if i < fields.len() {
        let field = fields[i as int];
        let trip = semantics::visit_field::<P, E>(walker, field, region, answers, from);
        if let Some(Ok(child)) = field.getter {
            lemma_plain_visit(walker, child, region, answers, from);
        }
        lemma_plain_fields(walker, fields, i + 1, region, answers, from + trip.calls.len());
    }
}

/// Where no field sets a region, the whole walk stays in the region that it starts in.
pub proof fn law_region_is_inherited<P, E>(
    walker: NativeWalker,
    value: Value<E>,
    region: DefRegionKind,
    answers: Seq<Answer<P, E>>,
    i: int,
)
    requires
        plain(value),
        0 <= i < semantics::visit(walker, value, region, answers, 0).calls.len(),
    ensures
        semantics::visit(walker, value, region, answers, 0).calls[i].region == region,
{
    lemma_plain_visit(walker, value, region, answers, 0);
}

/// A field flagged as a definition is visited in the region that its flags give, all
/// the way down, until another such field below it. The flag for the non-recursive
/// region counts where both are set.
pub proof fn law_definition_sets_region<P, E>(
    walker: NativeWalker,
    field: Field<E>,
    region: DefRegionKind,
    answers: Seq<Answer<P, E>>,
    from: nat,
)
    requires
        defines(field.flags),
        field.getter matches Some(Ok(child)) ==> plain(child),
    ensures
        all_in(
            semantics::visit_field(walker, field, region, answers, from),
            if field.flags & 4096 != 0 {
                DefRegionKind::NonRecursive
            } else {
                DefRegionKind::Recursive
            },
        ),
{
    if let Some(Ok(child)) = field.getter {
        let inner = kind::region_of_field(field.flags, region);
        lemma_plain_visit(walker, child, inner, answers, from);
    }
}

/// The visit of a field flagged as a definition does not depend on the region in
/// which the object that holds it is visited.
pub proof fn law_definition_forgets_region<P, E>(
    walker: NativeWalker,
    field: Field<E>,
    region: DefRegionKind,
    other: DefRegionKind,
    answers: Seq<Answer<P, E>>,
    from: nat,
)
    requires
        defines(field.flags),
    ensures
        semantics::visit_field(walker, field, region, answers, from) == semantics::visit_field(
            walker,
            field,
            other,
            answers,
            from,
        ),
{
}

/// The region that a field sets ends with the field: the fields behind it are visited
/// in the region of the object that holds them.
pub proof fn law_definition_spares_siblings<P, E>(
    walker: NativeWalker,
    fields: Seq<Field<E>>,
    region: DefRegionKind,
    answers: Seq<Answer<P, E>>,
    from: nat,
    k: int,
)
    requires
        fields.len() > 0,
        forall|j: int| 1 <= j < fields.len() ==> plain_field(#[trigger] fields[j]),
        semantics::visit_field(walker, fields[0], region, answers, from).calls.len() <= k
            < semantics::visit_fields(walker, fields, 0, region, answers, from).calls.len(),
    ensures
        semantics::visit_fields(walker, fields, 0, region, answers, from).calls[k].region
            == region,
{
    let trip = semantics::visit_field::<P, E>(walker, fields[0], region, answers, from);
    let next = from + trip.calls.len();
    let rest = semantics::visit_fields::<P, E>(walker, fields, 1, region, answers, next);
    lemma_plain_fields(walker, fields, 1, region, answers, next);
    assert(semantics::visit_fields(walker, fields, 0, region, answers, from)
        == trip.followed_by(rest));
    assert(rest.calls[k - trip.calls.len()].region == region);
}

} // verus!

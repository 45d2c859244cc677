//! What a reconstruction leaves out, and how it says so.
use vstd::prelude::*;
use vstd::string::StringExecFns;
use crate::input::ElementData;
use crate::ordering::{ascending, find_id, lists_distinct, unique};
use crate::text::{append_list, append_number, decimal, list_text, with_number};

verus! {

/// The shells among the first elements that no panel represents.
pub open spec fn shells_without(elements: Seq<ElementData>, represented: Seq<u32>, upto: int) -> Seq<u32>
    decreases upto,
{
    if upto <= 0 {
        Seq::empty()
    } else if elements[upto - 1].shell() && !represented.contains(elements[upto - 1].id) {
        shells_without(elements, represented, upto - 1).push(elements[upto - 1].id)
    } else {
        shells_without(elements, represented, upto - 1)
    }
}

pub fn missing_shells(elements: &Vec<ElementData>, represented: &Vec<u32>) -> (r: Vec<u32>)
    requires
        ascending(represented@),
    ensures
        r@ == shells_without(elements@, represented@, elements@.len() as int),
{
    let mut r: Vec<u32> = Vec::new();
    let mut k: usize = 0;
    while k < elements.len()
        invariant
            ascending(represented@),
            k <= elements@.len(),
            r@ == shells_without(elements@, represented@, k as int),
        decreases elements@.len() - k,
    {
        if elements[k].is_shell() {
            match find_id(represented, elements[k].id) {
                Some(_) => {},
                None => {
                    r.push(elements[k].id);
                },
            }
        }
        k += 1;
    }
    r
}

/// The bar elements among the first that no axis represents.
pub open spec fn bars_without(elements: Seq<ElementData>, represented: Seq<u32>, upto: int) -> Seq<u32>
    decreases upto,
{
    if upto <= 0 {
        Seq::empty()
    } else if elements[upto - 1].bar() && !represented.contains(elements[upto - 1].id) {
        bars_without(elements, represented, upto - 1).push(elements[upto - 1].id)
    } else {
        bars_without(elements, represented, upto - 1)
    }
}

pub fn missing_bars(elements: &Vec<ElementData>, represented: &Vec<u32>) -> (r: Vec<u32>)
    requires
        ascending(represented@),
    ensures
        r@ == bars_without(elements@, represented@, elements@.len() as int),
{
    let mut r: Vec<u32> = Vec::new();
    let mut k: usize = 0;
    while k < elements.len()
        invariant
            ascending(represented@),
            k <= elements@.len(),
            r@ == bars_without(elements@, represented@, k as int),
        decreases elements@.len() - k,
    {
        if elements[k].is_bar() {
            match find_id(represented, elements[k].id) {
                Some(_) => {},
                None => {
                    r.push(elements[k].id);
                },
            }
        }
        k += 1;
    }
    r
}

/// An element that is neither a shell nor a bar.
pub open spec fn excluded(element: ElementData) -> bool {
    !element.shell() && !element.bar()
}

pub open spec fn excluded_types(elements: Seq<ElementData>, upto: int) -> Seq<u32>
    decreases upto,
{
    if upto <= 0 {
        Seq::empty()
    } else if excluded(elements[upto - 1]) {
        excluded_types(elements, upto - 1).push(elements[upto - 1].elem_type)
    } else {
        excluded_types(elements, upto - 1)
    }
}

pub open spec fn excluded_of(elements: Seq<ElementData>, kind: u32, upto: int) -> Seq<u32>
    decreases upto,
{
    if upto <= 0 {
        Seq::empty()
    } else if excluded(elements[upto - 1]) && elements[upto - 1].elem_type == kind {
        excluded_of(elements, kind, upto - 1).push(elements[upto - 1].id)
    } else {
        excluded_of(elements, kind, upto - 1)
    }
}

/// Elements of a type that is not recovered.
#[derive(Debug)]
pub struct ExcludedKind {
    pub kind: u32,
    pub ids: Vec<u32>,
}

fn ids_of_kind(elements: &Vec<ElementData>, kind: u32) -> (r: Vec<u32>)
    ensures
        r@ == excluded_of(elements@, kind, elements@.len() as int),
{
    let mut r: Vec<u32> = Vec::new();
    let mut k: usize = 0;
    while k < elements.len()
        invariant
            k <= elements@.len(),
            r@ == excluded_of(elements@, kind, k as int),
        decreases elements@.len() - k,
    {
        if !elements[k].is_shell() && !elements[k].is_bar() && elements[k].elem_type == kind {
            r.push(elements[k].id);
        }
        k += 1;
    }
    r
}

pub open spec fn excluded_listed(r: Seq<ExcludedKind>, kinds: Seq<u32>, elements: Seq<ElementData>) -> bool {
    &&& r.len() == kinds.len()
    &&& forall|k: int|
        0 <= k < r.len() ==> (#[trigger] r[k]).kind == kinds[k] && r[k].ids@ == excluded_of(
            elements,
            kinds[k],
            elements.len() as int,
        )
}

/// The elements that are kept but not recovered, by type.
pub fn excluded_elements(elements: &Vec<ElementData>) -> (r: Vec<ExcludedKind>)
    ensures
        exists|kinds: Seq<u32>| #[trigger]
            lists_distinct(kinds, excluded_types(elements@, elements@.len() as int)) && excluded_listed(
                r@,
                kinds,
                elements@,
            ),
{
    let mut types: Vec<u32> = Vec::new();
    let mut k: usize = 0;
    while k < elements.len()
        invariant
            k <= elements@.len(),
            types@ == excluded_types(elements@, k as int),
        decreases elements@.len() - k,
    {
        if !elements[k].is_shell() && !elements[k].is_bar() {
            types.push(elements[k].elem_type);
        }
        k += 1;
    }
    let kinds = unique(types);
    let mut r: Vec<ExcludedKind> = Vec::new();
    let mut k: usize = 0;
    while k < kinds.len()
        invariant
            k <= kinds@.len(),
            r@.len() == k,
            forall|m: int| 0 <= m < k ==> (#[trigger] r@[m]).kind == kinds@[m] && r@[m].ids@ == excluded_of(elements@, kinds@[m], elements@.len() as int),
        decreases kinds@.len() - k,
    {
        r.push(ExcludedKind { kind: kinds[k], ids: ids_of_kind(elements, kinds[k]) });
        k += 1;
    }
    assert(excluded_listed(r@, kinds@, elements@));
    r
}

/// A message that ends in a list of numbers.
pub fn listed_message(label: &str, ids: &Vec<u32>) -> (r: String)
    ensures
        r@ == label@ + list_text(ids@),
{
    let mut text = label.to_string();
    append_list(&mut text, ids);
    text
}

pub open spec fn excluded_text(kind: ExcludedKind) -> Seq<char> {
    "Тип КЭ "@ + decimal(kind.kind as nat) + ": "@ + decimal(kind.ids@.len())
        + " элементов сохранены во входных данных, не реконструируются как поверхности/стержни; ID: "@
        + list_text(kind.ids@)
}

/// What is said of elements that are not recovered.
pub fn excluded_message(kind: &ExcludedKind) -> (r: String)
    ensures
        r@ == excluded_text(*kind),
{
    let mut text = with_number("Тип КЭ ", kind.kind as usize);
    text.append(": ");
    append_number(&mut text, kind.ids.len());
    text.append(" элементов сохранены во входных данных, не реконструируются как поверхности/стержни; ID: ");
    append_list(&mut text, &kind.ids);
    assert(text@ =~= excluded_text(*kind));
    text
}

/// What is said of a panel with short edges left.
pub fn short_edges_message(panel: u32) -> (r: String)
    ensures
        r@ == "Панель "@ + decimal(panel as nat)
            + ": остались короткие ребра; требуется проверка перед перебивкой"@,
{
    let mut text = with_number("Панель ", panel as usize);
    text.append(": остались короткие ребра; требуется проверка перед перебивкой");
    text
}

/// Every element is a shell, a bar, or on record as not recovered.
pub proof fn nothing_is_dropped(elements: Seq<ElementData>, k: int, upto: int)
    requires
        0 <= k < upto <= elements.len(),
        excluded(elements[k]),
    ensures
        excluded_of(elements, elements[k].elem_type, upto).contains(elements[k].id),
    decreases upto,
{
    let all = excluded_of(elements, elements[k].elem_type, upto);
    let rest = excluded_of(elements, elements[k].elem_type, upto - 1);
    if k < upto - 1 {
        nothing_is_dropped(elements, k, upto - 1);
        let m = choose|m: int| 0 <= m < rest.len() && rest[m] == elements[k].id;
        assert(all[m] == elements[k].id);
    } else {
        assert(all[rest.len() as int] == elements[k].id);
    }
}

/// A shell is reported missing exactly when no panel represents it.
pub proof fn missing_shells_are_reported(elements: Seq<ElementData>, represented: Seq<u32>, upto: int, id: u32)
    requires
        0 <= upto <= elements.len(),
    ensures
        shells_without(elements, represented, upto).contains(id) <==> !represented.contains(id) && exists|k: int|
            0 <= k < upto && (#[trigger] elements[k]).shell() && elements[k].id == id,
    decreases upto,
{
    if upto > 0 {
        missing_shells_are_reported(elements, represented, upto - 1, id);
        let rest = shells_without(elements, represented, upto - 1);
        let all = shells_without(elements, represented, upto);
        if rest.contains(id) {
            let m = choose|m: int| 0 <= m < rest.len() && rest[m] == id;
            assert(all[m] == id);
        }
        if all.contains(id) && !rest.contains(id) {
            let m = choose|m: int| 0 <= m < all.len() && all[m] == id;
            assert(m == rest.len());
            assert(elements[upto - 1].shell());
        }
        if all.len() > rest.len() {
            assert(all.last() == elements[upto - 1].id);
        }
    }
}

/// A bar element is reported missing exactly when no axis represents it.
pub proof fn missing_bars_are_reported(elements: Seq<ElementData>, represented: Seq<u32>, upto: int, id: u32)
    requires
        0 <= upto <= elements.len(),
    ensures
        bars_without(elements, represented, upto).contains(id) <==> !represented.contains(id) && exists|k: int|
            0 <= k < upto && (#[trigger] elements[k]).bar() && elements[k].id == id,
    decreases upto,
{
    if upto > 0 {
        missing_bars_are_reported(elements, represented, upto - 1, id);
        let rest = bars_without(elements, represented, upto - 1);
        let all = bars_without(elements, represented, upto);
        if rest.contains(id) {
            let m = choose|m: int| 0 <= m < rest.len() && rest[m] == id;
            assert(all[m] == id);
        }
        if all.contains(id) && !rest.contains(id) {
            let m = choose|m: int| 0 <= m < all.len() && all[m] == id;
            assert(m == rest.len());
            assert(elements[upto - 1].bar());
        }
        if all.len() > rest.len() {
            assert(all.last() == elements[upto - 1].id);
        }
    }
}

/// An element is on record under a type exactly when it has that type and is neither a shell
/// nor a bar.
pub proof fn excluded_elements_are_recorded(elements: Seq<ElementData>, kind: u32, upto: int, id: u32)
    requires
        0 <= upto <= elements.len(),
    ensures
        excluded_of(elements, kind, upto).contains(id) <==> exists|k: int|
            0 <= k < upto && (#[trigger] elements[k]).elem_type == kind && !elements[k].shell() && !elements[k].bar()
                && elements[k].id == id,
        excluded_types(elements, upto).contains(kind) <==> exists|k: int|
            0 <= k < upto && (#[trigger] elements[k]).elem_type == kind && !elements[k].shell() && !elements[k].bar(),
    decreases upto,
{
    if upto > 0 {
        excluded_elements_are_recorded(elements, kind, upto - 1, id);
        let last = elements[upto - 1];
        let rest = excluded_of(elements, kind, upto - 1);
        let all = excluded_of(elements, kind, upto);
        if rest.contains(id) {
            let m = choose|m: int| 0 <= m < rest.len() && rest[m] == id;
            assert(all[m] == id);
        }
        if all.contains(id) && !rest.contains(id) {
            let m = choose|m: int| 0 <= m < all.len() && all[m] == id;
            assert(m == rest.len());
            assert(last.elem_type == kind);
        }
        if all.len() > rest.len() {
            assert(all.last() == last.id);
        }
        let kinds = excluded_types(elements, upto - 1);
        let more = excluded_types(elements, upto);
        if kinds.contains(kind) {
            let m = choose|m: int| 0 <= m < kinds.len() && kinds[m] == kind;
            assert(more[m] == kind);
        }
        if more.contains(kind) && !kinds.contains(kind) {
            let m = choose|m: int| 0 <= m < more.len() && more[m] == kind;
            assert(m == kinds.len());
            assert(last.elem_type == kind);
        }
        if more.len() > kinds.len() {
            assert(more.last() == last.elem_type);
        }
    }
}

/// Every excluded type is listed, with all its elements.
pub proof fn excluded_types_are_listed(r: Seq<ExcludedKind>, kinds: Seq<u32>, elements: Seq<ElementData>, k: int)
    requires
        excluded_listed(r, kinds, elements),
        0 <= k < kinds.len(),
    ensures
        r.len() == kinds.len(),
        r[k].kind == kinds[k],
        r[k].ids@ == excluded_of(elements, kinds[k], elements.len() as int),
{
}

} // verus!

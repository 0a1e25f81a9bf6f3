//! A small store of entity-attribute-value facts, with one index that finds
//! entities by attribute and value and one that finds values by entity and
//! attribute.

use vstd::prelude::*;
use vstd::utf8::{encode_utf8, encode_utf8_decode_utf8};
use std::collections::{HashMap, HashSet};
use vstd::std_specs::hash::spec_hash_keys_iter;
use vstd::std_specs::iter::IteratorSpec;

verus! {

/// The name of an entity.
pub type EID = usize;

/// The name of an attribute.
pub type Attr<'a> = &'a str;

/// A value that an entity can have for an attribute.
#[derive(Debug, PartialEq, PartialOrd, Ord, Eq, Hash)]
pub enum Val<'a> {
    Str(&'a str),
    Int(i64),
    Ref(EID),
}

/// One fact: entity `eid` has the value `val` for the attribute `attr`.
#[derive(Debug, PartialEq, PartialOrd, Ord, Eq)]
pub struct Datum<'a> {
    pub eid: EID,
    pub attr: Attr<'a>,
    pub val: Val<'a>,
}

/// A value, with text taken as a sequence of characters.
pub enum ValView {
    Str(Seq<char>),
    Int(i64),
    Ref(EID),
}

/// A fact, with text taken as a sequence of characters.
pub struct Fact {
    pub eid: EID,
    pub attr: Seq<char>,
    pub val: ValView,
}

impl<'a> View for Val<'a> {
    type V = ValView;

    open spec fn view(&self) -> ValView {
        match self {
            Val::Str(text) => ValView::Str(text@),
            Val::Int(number) => ValView::Int(*number),
            Val::Ref(eid) => ValView::Ref(*eid),
        }
    }
}

impl<'a> View for Datum<'a> {
    type V = Fact;

    open spec fn view(&self) -> Fact {
        Fact { eid: self.eid, attr: self.attr@, val: self.val@ }
    }
}

impl<'a> Datum<'a> {
    /// The fact that entity `eid` has the value `val` for `attr`.
    pub fn new(eid: EID, attr: Attr<'a>, val: Val<'a>) -> (datum: Self)
        ensures
            datum.eid == eid,
            datum.attr == attr,
            datum.val == val,
    {
        Datum { eid, attr, val }
    }
}

/// Whether two texts hold the same characters.
fn same_text(a: &str, b: &str) -> (same: bool)
    ensures
        same == (a@ == b@),
{
    let left = a.as_bytes();
    let right = b.as_bytes();
    proof {
        encode_utf8_decode_utf8(a@);
        encode_utf8_decode_utf8(b@);
    }
    if left.len() != right.len() {
        return false;
    }
    let mut i: usize = 0;
    while i < left.len()
        invariant
            i <= left.len(),
            left.len() == right.len(),
            left@ == encode_utf8(a@),
            right@ == encode_utf8(b@),
            forall|j: int| 0 <= j < i ==> left@[j] == right@[j],
        decreases left.len() - i,
    {
        if left[i] != right[i] {
            return false;
        }
        i += 1;
    }
    assert(left@ =~= right@);
    true
}

/// Whether two values are the same.
fn same_val(a: &Val, b: &Val) -> (same: bool)
    ensures
        same == (a@ == b@),
{
    match (a, b) {
        (Val::Str(x), Val::Str(y)) => same_text(x, y),
        (Val::Int(x), Val::Int(y)) => *x == *y,
        (Val::Ref(x), Val::Ref(y)) => *x == *y,
        _ => false,
    }
}

/// The facts that `data` holds.
pub open spec fn indexed<'a>(data: Seq<Datum<'a>>) -> Set<Fact> {
    Set::new(|fact: Fact| exists|i: int| 0 <= i < data.len() && (#[trigger] data[i])@ == fact)
}

/// The entities that, by `facts`, have the value `val` for `attr`.
pub open spec fn eids_with(facts: Set<Fact>, attr: Seq<char>, val: ValView) -> Set<EID> {
    Set::new(|eid: EID| facts.contains(Fact { eid, attr, val }))
}

/// The values that, by `facts`, the entity `eid` has for `attr`.
pub open spec fn vals_with(facts: Set<Fact>, eid: EID, attr: Seq<char>) -> Set<ValView> {
    Set::new(|val: ValView| facts.contains(Fact { eid, attr, val }))
}

/// The facts in the first `i + 1` items of `data` are those in the first `i`
/// and that of item `i`.
proof fn lemma_indexed_next<'a>(data: Seq<Datum<'a>>, i: int)
    requires
        0 <= i < data.len(),
    ensures
        indexed(data.take(i + 1)) == indexed(data.take(i)).insert(data[i]@),
{
    let shorter = data.take(i);
    let longer = data.take(i + 1);
    assert forall|fact: Fact| indexed(shorter).insert(data[i]@).contains(fact) implies indexed(
        longer,
    ).contains(fact) by {
        if fact == data[i]@ {
            assert(longer[i]@ == fact);
        } else {
            let j = choose|j: int| 0 <= j < shorter.len() && (#[trigger] shorter[j])@ == fact;
            assert(longer[j]@ == fact);
        }
    }
    assert(indexed(longer) =~= indexed(shorter).insert(data[i]@));
}

/// The entities that share one attribute and value.
#[derive(Debug)]
struct AveEntry<'a> {
    attr: Attr<'a>,
    val: &'a Val<'a>,
    eids: HashSet<EID>,
}

impl<'a> AveEntry<'a> {
    /// Whether the entry stands for `attr` and `val`.
    spec fn keyed(&self, attr: Seq<char>, val: ValView) -> bool {
        self.attr@ == attr && self.val@ == val
    }

    /// Whether the entry holds `fact`.
    spec fn has(&self, fact: Fact) -> bool {
        self.keyed(fact.attr, fact.val) && self.eids@.contains(fact.eid)
    }
}

/// Whether one of `entries` holds `fact`.
spec fn ave_has<'a>(entries: Seq<AveEntry<'a>>, fact: Fact) -> bool {
    exists|i: int| 0 <= i < entries.len() && (#[trigger] entries[i]).has(fact)
}

/// Whether no entry is empty and no two entries stand for the same
/// attribute and value.
spec fn ave_wf<'a>(entries: Seq<AveEntry<'a>>) -> bool {
    &&& forall|i: int| 0 <= i < entries.len() ==> !(#[trigger] entries[i]).eids@.is_empty()
    &&& forall|i: int, j: int|
        0 <= i < j < entries.len() ==> !(#[trigger] entries[i]).keyed(
            (#[trigger] entries[j]).attr@,
            entries[j].val@,
        )
}

/// The place of the entry for `attr` and `val`, if there is one.
fn ave_position<'a>(entries: &Vec<AveEntry<'a>>, attr: &str, val: &Val) -> (at: Option<usize>)
    ensures
        match at {
            Some(place) => place < entries.len() && entries[place as int].keyed(attr@, val@),
            None => forall|i: int|
                0 <= i < entries.len() ==> !(#[trigger] entries[i]).keyed(attr@, val@),
        },
{
    let mut i: usize = 0;
    while i < entries.len()
        invariant
            i <= entries.len(),
            forall|j: int| 0 <= j < i ==> !(#[trigger] entries[j]).keyed(attr@, val@),
        decreases entries.len() - i,
    {
        if same_text(entries[i].attr, attr) && same_val(entries[i].val, val) {
            return Some(i);
        }
        i += 1;
    }
    None
}

/// An index from attribute and value to the entities that have them.
#[derive(Debug)]
pub struct AVEIndex<'a> {
    index: Vec<AveEntry<'a>>,
}

impl<'a> View for AVEIndex<'a> {
    type V = Set<Fact>;

    /// The facts that the index holds.
    closed spec fn view(&self) -> Set<Fact> {
        Set::new(|fact: Fact| ave_has(self.index@, fact))
    }
}

impl<'a> AVEIndex<'a> {
    #[verifier::type_invariant]
    spec fn inv(&self) -> bool {
        ave_wf(self.index@)
    }

    /// The index of the facts in `data`.
    pub fn new(data: &'a [Datum<'a>]) -> (index: AVEIndex<'a>)
        ensures
            index@ == indexed(data@),
    {
        broadcast use vstd::std_specs::hash::group_hash_axioms;

        let mut entries: Vec<AveEntry<'a>> = Vec::new();
        let mut i: usize = 0;
        while i < data.len()
            invariant
                i <= data.len(),
                ave_wf(entries@),
                forall|fact: Fact|
                    ave_has(entries@, fact) <==> indexed(data@.take(i as int)).contains(fact),
            decreases data.len() - i,
        {
            let datum = &data[i];
            let ghost before = entries@;
            match ave_position(&entries, datum.attr, &datum.val) {
                Some(place) => {
                    entries[place].eids.insert(datum.eid);
                    proof {
                        assert(entries@[place as int].has(datum@));
                    }
                },
                None => {
                    let mut eids: HashSet<EID> = HashSet::new();
                    eids.insert(datum.eid);
                    entries.push(AveEntry { attr: datum.attr, val: &datum.val, eids });
                    proof {
                        assert(entries@[before.len() as int].has(datum@));
                    }
                },
            }
            proof {
                // What was held is still held, in its old place.
                assert forall|fact: Fact| ave_has(before, fact) implies ave_has(entries@, fact) by {
                    let k = choose|k: int|
                        0 <= k < before.len() && (#[trigger] before[k]).has(fact);
                    assert(entries@[k].has(fact));
                }
                lemma_indexed_next(data@, i as int);
                assert forall|fact: Fact|
                    ave_has(entries@, fact) <==> indexed(data@.take(i + 1)).contains(fact) by {
                    assert(ave_has(before, fact) <==> indexed(data@.take(i as int)).contains(fact));
                }
            }
            i += 1;
        }
        assert(data@.take(data.len() as int) =~= data@);
        let index = AVEIndex { index: entries };
        assert(index@ =~= indexed(data@));
        index
    }

    /// The entities that have the value `val` for `attr`, if there is any.
    pub fn find<'b>(&'a self, attr: Attr, val: &Val<'b>) -> (found: Option<&'a HashSet<EID>>)
        where 'b: 'a
        ensures
            found matches Some(eids) ==> eids@ == eids_with(self@, attr@, val@),
            found matches Some(eids) ==> !eids@.is_empty(),
            found is None ==> forall|eid: EID|
                !self@.contains(Fact { eid, attr: attr@, val: val@ }),
    {
        proof {
            use_type_invariant(self);
        }
        match ave_position(&self.index, attr, val) {
            Some(place) => {
                let eids = &self.index[place].eids;
                assert(eids@ =~= eids_with(self@, attr@, val@));
                Some(eids)
            },
            None => None,
        }
    }

    /// One of the entities that have the value `val` for `attr`, if there
    /// is any.
    pub fn find_one(&self, attr: Attr, val: &Val) -> (found: Option<EID>)
        ensures
            match found {
                Some(eid) => self@.contains(Fact { eid, attr: attr@, val: val@ }),
                None => forall|eid: EID| !self@.contains(Fact { eid, attr: attr@, val: val@ }),
            },
    {
        broadcast use vstd::std_specs::hash::group_hash_axioms;

        match self.find(attr, val) {
            Some(eids) => {
                proof {
                    // The set holds an entity, so the walk through it has a first step.
                    let eid = choose|eid: EID| eids@.contains(eid);
                    assert(spec_hash_keys_iter(eids).remaining().unref().contains(eid));
                }
                for eid in rest: eids.iter()
                    invariant
                        rest.index() == 0,
                        rest.seq().len() > 0,
                        rest.seq().unref().to_set() == eids_with(self@, attr@, val@),
                {
                    assert(rest.seq().unref().to_set().contains(*eid));
                    return Some(*eid);
                }
                // Not reached: the walk has a first step.
                None
            },
            None => None,
        }
    }
}

/// The views of the values in `vals`.
pub open spec fn views_of<'a>(vals: Seq<&'a Val<'a>>) -> Set<ValView> {
    Set::new(|view: ValView| exists|i: int| 0 <= i < vals.len() && (#[trigger] vals[i])@ == view)
}

/// The values that one entity has for one attribute.
#[derive(Debug)]
struct EavEntry<'a> {
    attr: Attr<'a>,
    vals: Vec<&'a Val<'a>>,
}

impl<'a> EavEntry<'a> {
    /// Whether the entry holds `val` for `attr`.
    spec fn has(&self, attr: Seq<char>, val: ValView) -> bool {
        self.attr@ == attr && views_of(self.vals@).contains(val)
    }

    /// Whether the entry holds a value, and none twice.
    spec fn wf(&self) -> bool {
        &&& self.vals@.len() > 0
        &&& forall|i: int, j: int|
            0 <= i < j < self.vals@.len() ==> (#[trigger] self.vals@[i])@
                != (#[trigger] self.vals@[j])@
    }
}

/// Whether one of `attrs` holds `val` for `attr`.
spec fn attrs_have<'a>(attrs: Seq<EavEntry<'a>>, attr: Seq<char>, val: ValView) -> bool {
    exists|i: int| 0 <= i < attrs.len() && (#[trigger] attrs[i]).has(attr, val)
}

/// Whether each entry is in order and no two stand for the same attribute.
spec fn attrs_wf<'a>(attrs: Seq<EavEntry<'a>>) -> bool {
    &&& forall|i: int| 0 <= i < attrs.len() ==> (#[trigger] attrs[i]).wf()
    &&& forall|i: int, j: int|
        0 <= i < j < attrs.len() ==> (#[trigger] attrs[i]).attr@ != (#[trigger] attrs[j]).attr@
}

/// Whether `index` holds `fact`.
spec fn eav_has<'a>(index: Map<EID, Vec<EavEntry<'a>>>, fact: Fact) -> bool {
    index.contains_key(fact.eid) && attrs_have(index[fact.eid]@, fact.attr, fact.val)
}

/// The place of the entry for `attr`, if there is one.
fn eav_position<'a>(attrs: &Vec<EavEntry<'a>>, attr: &str) -> (at: Option<usize>)
    ensures
        match at {
            Some(place) => place < attrs.len() && attrs[place as int].attr@ == attr@,
            None => forall|i: int| 0 <= i < attrs.len() ==> (#[trigger] attrs[i]).attr@ != attr@,
        },
{
    let mut i: usize = 0;
    while i < attrs.len()
        invariant
            i <= attrs.len(),
            forall|j: int| 0 <= j < i ==> (#[trigger] attrs[j]).attr@ != attr@,
        decreases attrs.len() - i,
    {
        if same_text(attrs[i].attr, attr) {
            return Some(i);
        }
        i += 1;
    }
    None
}

/// Whether `val` is among `vals`.
fn holds_val<'a>(vals: &Vec<&'a Val<'a>>, val: &Val) -> (held: bool)
    ensures
        held == views_of(vals@).contains(val@),
{
    let mut i: usize = 0;
    while i < vals.len()
        invariant
            i <= vals.len(),
            forall|j: int| 0 <= j < i ==> (#[trigger] vals[j])@ != val@,
        decreases vals.len() - i,
    {
        if same_val(vals[i], val) {
            return true;
        }
        i += 1;
    }
    false
}

/// Adds `val` to what `attrs` holds for `attr`.
fn add_value<'a>(attrs: &mut Vec<EavEntry<'a>>, attr: Attr<'a>, val: &'a Val<'a>)
    requires
        attrs_wf(old(attrs)@),
    ensures
        attrs_wf(final(attrs)@),
        forall|a: Seq<char>, v: ValView|
            attrs_have(final(attrs)@, a, v) <==> attrs_have(old(attrs)@, a, v) || (a == attr@ && v
                == val@),
{
    let ghost before = attrs@;
    match eav_position(attrs, attr) {
        Some(place) => {
            if !holds_val(&attrs[place].vals, val) {
                attrs[place].vals.push(val);
                proof {
                    let grown = attrs@[place as int];
                    let entry = before[place as int];
                    assert(grown.vals@[entry.vals@.len() as int]@ == val@);
                    assert forall|a: Seq<char>, v: ValView|
                        attrs_have(before, a, v) implies attrs_have(attrs@, a, v) by {
                        let k = choose|k: int|
                            0 <= k < before.len() && (#[trigger] before[k]).has(a, v);
                        if k == place {
                            let j = choose|j: int|
                                0 <= j < entry.vals@.len() && (#[trigger] entry.vals@[j])@ == v;
                            assert(grown.vals@[j]@ == v);
                        }
                        assert(attrs@[k].has(a, v));
                    }
                }
            }
        },
        None => {
            let mut vals: Vec<&'a Val<'a>> = Vec::new();
            vals.push(val);
            attrs.push(EavEntry { attr, vals });
            proof {
                let added = attrs@[before.len() as int];
                assert(added.vals@[0]@ == val@);
                assert forall|a: Seq<char>, v: ValView|
                    attrs_have(before, a, v) implies attrs_have(attrs@, a, v) by {
                    let k = choose|k: int|
                        0 <= k < before.len() && (#[trigger] before[k]).has(a, v);
                    assert(attrs@[k].has(a, v));
                }
            }
        },
    }
}

/// An index from entity and attribute to the values that the entity has for
/// the attribute.
#[derive(Debug)]
pub struct EAVIndex<'a> {
    index: HashMap<EID, Vec<EavEntry<'a>>>,
}

impl<'a> View for EAVIndex<'a> {
    type V = Set<Fact>;

    /// The facts that the index holds.
    closed spec fn view(&self) -> Set<Fact> {
        Set::new(|fact: Fact| eav_has(self.index@, fact))
    }
}

impl<'a> EAVIndex<'a> {
    #[verifier::type_invariant]
    spec fn inv(&self) -> bool {
        forall|eid: EID| #[trigger] self.index@.contains_key(eid) ==> attrs_wf(self.index@[eid]@)
    }

    /// The index of the facts in `data`.
    pub fn new(data: &'a [Datum<'a>]) -> (index: EAVIndex<'a>)
        ensures
            index@ == indexed(data@),
    {
        broadcast use vstd::std_specs::hash::group_hash_axioms;

        let mut index: HashMap<EID, Vec<EavEntry<'a>>> = HashMap::new();
        let mut i: usize = 0;
        while i < data.len()
            invariant
                i <= data.len(),
                forall|eid: EID| #[trigger] index@.contains_key(eid) ==> attrs_wf(index@[eid]@),
                forall|fact: Fact|
                    eav_has(index@, fact) <==> indexed(data@.take(i as int)).contains(fact),
            decreases data.len() - i,
        {
            let datum = &data[i];
            let ghost before = index@;
            let mut attrs: Vec<EavEntry<'a>> = match index.remove(&datum.eid) {
                Some(attrs) => attrs,
                None => Vec::new(),
            };
            add_value(&mut attrs, datum.attr, &datum.val);
            index.insert(datum.eid, attrs);
            proof {
                lemma_indexed_next(data@, i as int);
                assert forall|fact: Fact|
                    eav_has(index@, fact) <==> indexed(data@.take(i + 1)).contains(fact) by {
                    assert(eav_has(before, fact) <==> indexed(data@.take(i as int)).contains(fact));
                }
            }
            i += 1;
        }
        assert(data@.take(data.len() as int) =~= data@);
        let index = EAVIndex { index };
        assert(index@ =~= indexed(data@));
        index
    }

    /// The values that the entity `eid` has for `attr`, each once, if there
    /// is any.
    pub fn find(&'a self, eid: EID, attr: Attr) -> (found: Option<&'a Vec<&'a Val<'a>>>)
        ensures
            found matches Some(vals) ==> views_of(vals@) == vals_with(self@, eid, attr@),
            found matches Some(vals) ==> vals@.len() > 0,
            found matches Some(vals) ==> forall|i: int, j: int|
                0 <= i < j < vals@.len() ==> (#[trigger] vals@[i])@ != (#[trigger] vals@[j])@,
            found is None ==> forall|val: ValView| !self@.contains(Fact { eid, attr: attr@, val }),
    {
        broadcast use vstd::std_specs::hash::group_hash_axioms;

        proof {
            use_type_invariant(self);
        }
        match self.index.get(&eid) {
            Some(attrs) => {
                match eav_position(attrs, attr) {
                    Some(place) => {
                        let vals = &attrs[place].vals;
                        assert(views_of(vals@) =~= vals_with(self@, eid, attr@));
                        Some(vals)
                    },
                    None => None,
                }
            },
            None => None,
        }
    }

    /// One of the values that the entity `eid` has for `attr`, if there is
    /// any.
    pub fn find_one(&self, eid: EID, attr: Attr) -> (found: Option<&Val>)
        ensures
            found matches Some(val) ==> self@.contains(Fact { eid, attr: attr@, val: val@ }),
            found is None ==> forall|val: ValView| !self@.contains(Fact { eid, attr: attr@, val }),
    {
        match self.find(eid, attr) {
            Some(vals) => {
                let val: &Val = vals[0];
                proof {
                    assert(views_of(vals@).contains(val@));
                }
                Some(val)
            },
            None => None,
        }
    }
}

} // verus!

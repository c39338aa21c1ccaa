//! Catalog entries: reading them from a JSON document, listing them in
//! natural order of their ids, and looking one up.
use crate::json::{
    find_member, get_text, get_text_list, member, parse_json_object, text_list_of,
    text_of, Json, json_error_of, json_object_of, member_keys_distinct,
};
use crate::order::{lemma_natural_order_flip, natural_cmp, natural_order, views};
use crate::strmap::{lemma_map_of, StrMap};
use core::cmp::Ordering;
use vstd::prelude::*;

verus! {

/// One catalog entry.
#[derive(Debug, Clone, PartialEq, Eq)]
pub struct IsmEntry {
    pub ch_name: String,
    pub en_name: String,
    pub axis_list: Vec<String>,
    pub feature_list: Vec<String>,
    pub related_list: Vec<String>,
}

pub struct IsmEntryView {
    pub ch_name: Seq<char>,
    pub en_name: Seq<char>,
    pub axis_list: Seq<Seq<char>>,
    pub feature_list: Seq<Seq<char>>,
    pub related_list: Seq<Seq<char>>,
}

impl View for IsmEntry {
    type V = IsmEntryView;

    open spec fn view(&self) -> IsmEntryView {
        IsmEntryView {
            ch_name: self.ch_name@,
            en_name: self.en_name@,
            axis_list: views(self.axis_list@),
            feature_list: views(self.feature_list@),
            related_list: views(self.related_list@),
        }
    }
}

/// An entry as the list shows it: its id and its two names.
#[derive(Debug, Clone, PartialEq, Eq)]
pub struct IsmItem {
    pub id: String,
    pub ch_name: String,
    pub en_name: String,
}

pub struct IsmItemView {
    pub id: Seq<char>,
    pub ch_name: Seq<char>,
    pub en_name: Seq<char>,
}

impl View for IsmItem {
    type V = IsmItemView;

    open spec fn view(&self) -> IsmItemView {
        IsmItemView { id: self.id@, ch_name: self.ch_name@, en_name: self.en_name@ }
    }
}

/// What a replacement catalog would hold.
#[derive(Debug, Clone, PartialEq, Eq)]
pub struct IsmUpdatePreview {
    pub entry_count: usize,
}

/// The text is not one JSON object; `message` is the parser's diagnostic.
#[derive(Debug, Clone, PartialEq, Eq)]
pub struct DocumentSyntaxError {
    pub message: String,
}

/// The catalog: entries by id.
pub type IsmMap = StrMap<IsmEntry>;

pub open spec fn field_text(ms: Seq<(String, Json)>, key: Seq<char>) -> Option<Seq<char>> {
    match member(ms, key) {
        Some(v) => text_of(v),
        None => None,
    }
}

pub open spec fn field_list(ms: Seq<(String, Json)>, key: Seq<char>) -> Option<Seq<Seq<char>>> {
    match member(ms, key) {
        Some(v) => text_list_of(v),
        None => None,
    }
}

/// The entry that a JSON value describes: an object whose two names are
/// strings and whose three lists are arrays of strings; other members are
/// ignored.
pub open spec fn entry_of(v: Json) -> Option<IsmEntryView> {
    match v {
        Json::Object(ms) => match (
            field_text(ms@, "ch_name"@),
            field_text(ms@, "en_name"@),
            field_list(ms@, "axis_list"@),
            field_list(ms@, "feature_list"@),
            field_list(ms@, "related_list"@),
        ) {
            (Some(c), Some(e), Some(a), Some(f), Some(r)) => Some(
                IsmEntryView { ch_name: c, en_name: e, axis_list: a, feature_list: f, related_list: r },
            ),
            _ => None,
        },
        _ => None,
    }
}

/// The catalog that the members of a document give: each member but
/// `introduction` whose value describes an entry.
pub open spec fn catalog_of(ms: Seq<(String, Json)>) -> Map<Seq<char>, IsmEntryView>
    decreases ms.len(),
{
    if ms.len() == 0 {
        Map::empty()
    } else {
        let prev = catalog_of(ms.drop_last());
        let k = ms.last().0@;
        if k != "introduction"@ && entry_of(ms.last().1) is Some {
            prev.insert(k, entry_of(ms.last().1)->0)
        } else {
            prev
        }
    }
}

/// The catalog that a document's text gives, or `None` where the text is not
/// one JSON object.
pub open spec fn parsed_catalog(s: Seq<char>) -> Option<Map<Seq<char>, IsmEntryView>> {
    match json_object_of(s) {
        Some(ms) => Some(catalog_of(ms)),
        None => None,
    }
}

fn copy_texts(v: &Vec<String>) -> (r: Vec<String>)
    ensures
        views(r@) == views(v@),
{
    let mut out: Vec<String> = Vec::new();
    let mut i: usize = 0;
    while i < v.len()
        invariant
            i <= v.len(),
            out.len() == i,
            forall|j: int| 0 <= j < i ==> out@[j]@ == v@[j]@,
        decreases v.len() - i,
    {
        out.push(v[i].clone());
        i = i + 1;
    }
    assert(views(out@) =~= views(v@));
    out
}

impl IsmEntry {
    /// A copy of the entry.
    pub fn duplicate(&self) -> (r: IsmEntry)
        ensures
            r@ == self@,
    {
        IsmEntry {
            ch_name: self.ch_name.clone(),
            en_name: self.en_name.clone(),
            axis_list: copy_texts(&self.axis_list),
            feature_list: copy_texts(&self.feature_list),
            related_list: copy_texts(&self.related_list),
        }
    }
}

fn member_text(ms: &Vec<(String, Json)>, key: &str) -> (r: Option<String>)
    ensures
        r is Some <==> field_text(ms@, key@) is Some,
        r matches Some(s) ==> s@ == field_text(ms@, key@)->0,
{
    match find_member(ms, &key.to_owned()) {
        Some(v) => get_text(v),
        None => None,
    }
}

fn member_list(ms: &Vec<(String, Json)>, key: &str) -> (r: Option<Vec<String>>)
    ensures
        r is Some <==> field_list(ms@, key@) is Some,
        r matches Some(l) ==> views(l@) == field_list(ms@, key@)->0,
{
    match find_member(ms, &key.to_owned()) {
        Some(v) => get_text_list(v),
        None => None,
    }
}

/// The entry that a JSON value describes, if it describes one.
pub fn entry_from_json(v: &Json) -> (r: Option<IsmEntry>)
    ensures
        r is Some <==> entry_of(*v) is Some,
        r matches Some(e) ==> e@ == entry_of(*v)->0,
{
    match v {
        Json::Object(ms) => {
            let ch_name = member_text(ms, "ch_name");
            if ch_name.is_none() {
                return None;
            }
            match (
                ch_name,
                member_text(ms, "en_name"),
                member_list(ms, "axis_list"),
                member_list(ms, "feature_list"),
                member_list(ms, "related_list"),
            ) {
                (Some(c), Some(e), Some(a), Some(f), Some(r)) => Some(
                    IsmEntry { ch_name: c, en_name: e, axis_list: a, feature_list: f, related_list: r },
                ),
                _ => None,
            }
        },
        _ => None,
    }
}

/// Builds the catalog from the members of a document.
pub fn catalog_from_members(members: &Vec<(String, Json)>) -> (r: IsmMap)
    ensures
        r.wf(),
        r@ == catalog_of(members@),
{
    let reserved = "introduction".to_owned();
    let mut map: IsmMap = StrMap::new();
    let mut i: usize = 0;
    assert(members@.take(0) =~= Seq::<(String, Json)>::empty());
    while i < members.len()
        invariant
            i <= members.len(),
            reserved@ == "introduction"@,
            map.wf(),
            map@ == catalog_of(members@.take(i as int)),
        decreases members.len() - i,
    {
        assert(members@.take(i + 1).drop_last() =~= members@.take(i as int));
        if !(members[i].0 == reserved) {
            match entry_from_json(&members[i].1) {
                Some(entry) => {
                    map.insert(members[i].0.clone(), entry);
                },
                None => {},
            }
        }
        i = i + 1;
    }
    assert(members@.take(i as int) =~= members@);
    map
}

/// Reads a catalog document: every top-level member but `introduction` whose
/// value is an object with the five fields of an entry, of the right types,
/// becomes an entry; other members are skipped. Fails only where the text is
/// not one JSON object.
pub fn parse_ism_map_from_str(s: &str) -> (r: Result<IsmMap, DocumentSyntaxError>)
    ensures
        r is Ok <==> parsed_catalog(s@) is Some,
        r matches Ok(m) ==> m.wf() && Some(m@) == parsed_catalog(s@),
        r matches Err(e) ==> e.message@ == json_error_of(s@),
{
    match parse_json_object(s) {
        Ok(members) => Ok(catalog_from_members(&members)),
        Err(message) => Err(DocumentSyntaxError { message }),
    }
}


pub open spec fn item_of(e: (String, IsmEntry)) -> IsmItemView {
    IsmItemView { id: e.0@, ch_name: e.1.ch_name@, en_name: e.1.en_name@ }
}

/// Each item is at most its successor in natural order of ids.
pub open spec fn ordered_by_id(s: Seq<IsmItem>) -> bool {
    forall|i: int| 0 <= i < s.len() - 1 ==> #[trigger] natural_order(s[i].id@, s[i + 1].id@) != Ordering::Greater
}

fn goes_after(a: &IsmItem, b: &IsmItem) -> (r: bool)
    ensures
        r == (natural_order(a.id@, b.id@) == Ordering::Greater),
{
    match natural_cmp(a.id.as_str(), b.id.as_str()) {
        Ordering::Greater => true,
        _ => false,
    }
}

/// Each item comes from the entry that `back` names, and each of the first
/// `k` entries gives the item that `fwd` names.
#[verifier::opaque]
pub open spec fn items_from(
    out: Seq<IsmItem>,
    es: Seq<(String, IsmEntry)>,
    k: int,
    back: Seq<int>,
    fwd: Seq<int>,
) -> bool {
    &&& back.len() == out.len()
    &&& fwd.len() == k
    &&& forall|j: int| 0 <= j < out.len() ==> 0 <= #[trigger] back[j] < k && out[j]@ == item_of(es[back[j]])
    &&& forall|i: int| 0 <= i < k ==> 0 <= #[trigger] fwd[i] < out.len() && out[fwd[i]]@ == item_of(es[i])
}

pub open spec fn shifted(fwd: Seq<int>, pos: int) -> Seq<int> {
    fwd.map_values(|j: int| if j >= pos { j + 1 } else { j })
}

pub open spec fn ids_distinct(out: Seq<IsmItem>) -> bool {
    forall|a: int, b: int| 0 <= a < b < out.len() ==> out[a].id@ != out[b].id@
}

proof fn lemma_insert_items_from(
    es: Seq<(String, IsmEntry)>,
    k: int,
    o: Seq<IsmItem>,
    pos: int,
    x: IsmItem,
    back: Seq<int>,
    fwd: Seq<int>,
)
    requires
        0 <= k < es.len(),
        items_from(o, es, k, back, fwd),
        x@ == item_of(es[k]),
        0 <= pos <= o.len(),
    ensures
        items_from(o.insert(pos, x), es, k + 1, back.insert(pos, k), shifted(fwd, pos).push(pos)),
{
    reveal(items_from);
    let n = o.insert(pos, x);
    let b2 = back.insert(pos, k);
    let f2 = shifted(fwd, pos).push(pos);
    assert forall|j: int| 0 <= j < n.len() implies 0 <= #[trigger] b2[j] < k + 1 && n[j]@ == item_of(es[b2[j]]) by {
        if j < pos {
            assert(o[j] == n[j] && b2[j] == back[j]);
        } else if j > pos {
            assert(o[j - 1] == n[j] && b2[j] == back[j - 1]);
        }
    }
    assert forall|i: int| 0 <= i < k + 1 implies 0 <= #[trigger] f2[i] < n.len() && n[f2[i]]@ == item_of(es[i]) by {
        if i < k {
            let j = fwd[i];
            assert(f2[i] == shifted(fwd, pos)[i]);
            if j < pos {
                assert(n[j] == o[j]);
            } else {
                assert(n[j + 1] == o[j]);
            }
        }
    }
}

proof fn lemma_insert_distinct(
    es: Seq<(String, IsmEntry)>,
    k: int,
    o: Seq<IsmItem>,
    pos: int,
    x: IsmItem,
    back: Seq<int>,
    fwd: Seq<int>,
)
    requires
        crate::strmap::keys_distinct(es),
        0 <= k < es.len(),
        items_from(o, es, k, back, fwd),
        ids_distinct(o),
        x@ == item_of(es[k]),
        0 <= pos <= o.len(),
    ensures
        ids_distinct(o.insert(pos, x)),
{
    reveal(items_from);
    let p = pos;
    let n = o.insert(pos, x);
    assert forall|j: int| 0 <= j < o.len() implies o[j].id@ != x.id@ by {
        let i = back[j];
        assert(es[i].0@ != es[k].0@);
    }
    assert forall|a: int, b: int| 0 <= a < b < n.len() implies n[a].id@ != n[b].id@ by {
        if b < p {
            assert(n[a] == o[a] && n[b] == o[b]);
        } else if b == p {
            assert(n[a] == o[a]);
        } else if a < p {
            assert(n[a] == o[a] && n[b] == o[b - 1]);
        } else if a == p {
            assert(n[b] == o[b - 1]);
        } else {
            assert(n[b] == o[b - 1] && n[a] == o[a - 1]);
        }
    }
}

proof fn lemma_insert_ordered(o: Seq<IsmItem>, pos: int, x: IsmItem)
    requires
        ordered_by_id(o),
        0 <= pos <= o.len(),
        pos > 0 ==> natural_order(o[pos - 1].id@, x.id@) != Ordering::Greater,
        pos < o.len() ==> natural_order(o[pos].id@, x.id@) == Ordering::Greater,
    ensures
        ordered_by_id(o.insert(pos, x)),
{
    let p = pos;
    let n = o.insert(pos, x);
    assert forall|i: int| 0 <= i < n.len() - 1 implies #[trigger] natural_order(n[i].id@, n[i + 1].id@)
        != Ordering::Greater by {
        if i + 1 < p {
            assert(n[i] == o[i] && n[i + 1] == o[i + 1]);
            assert(natural_order(o[i].id@, o[i + 1].id@) != Ordering::Greater);
        } else if i + 1 == p {
            assert(n[i] == o[i] && n[i + 1] == x);
        } else if i == p {
            assert(n[i] == x && n[i + 1] == o[p]);
            lemma_natural_order_flip(o[p].id@, x.id@);
        } else {
            assert(n[i] == o[i - 1] && n[i + 1] == o[i]);
            let m = i - 1;
            assert(m + 1 == i);
            assert(natural_order(o[m].id@, o[m + 1].id@) != Ordering::Greater);
        }
    }
}

proof fn lemma_items_cover(map: &IsmMap, out: Seq<IsmItem>, back: Seq<int>, fwd: Seq<int>)
    requires
        map.wf(),
        items_from(out, map.entries@, map.entries@.len() as int, back, fwd),
    ensures
        forall|i: int|
            0 <= i < out.len() ==> map@.contains_key(#[trigger] out[i].id@) && map@[out[i].id@].ch_name
                == out[i].ch_name@ && map@[out[i].id@].en_name == out[i].en_name@,
        forall|k: Seq<char>| map@.contains_key(k) ==> exists|i: int| 0 <= i < out.len() && #[trigger] out[i].id@ == k,
{
    reveal(items_from);
    let es = map.entries@;
    lemma_map_of(es);
    assert forall|i: int| 0 <= i < out.len() implies map@.contains_key(#[trigger] out[i].id@)
        && map@[out[i].id@].ch_name == out[i].ch_name@ && map@[out[i].id@].en_name
        == out[i].en_name@ by {
        let j = back[i];
        assert(map@.contains_key(es[j].0@));
    }
    assert forall|key: Seq<char>| map@.contains_key(key) implies exists|i: int|
        0 <= i < out.len() && #[trigger] out[i].id@ == key by {
        let j = choose|j: int| 0 <= j < es.len() && es[j].0@ == key;
        let i = fwd[j];
        assert(out[i].id@ == key);
    }
}

/// `r` lists the catalog `m`: each entry once with its id and two names,
/// nothing else, in natural order of ids.
pub open spec fn is_listing(m: Map<Seq<char>, IsmEntryView>, r: Seq<IsmItem>) -> bool {
    &&& forall|i: int|
        0 <= i < r.len() ==> m.contains_key(#[trigger] r[i].id@) && m[r[i].id@].ch_name == r[i].ch_name@
            && m[r[i].id@].en_name == r[i].en_name@
    &&& forall|k: Seq<char>| m.contains_key(k) ==> exists|i: int| 0 <= i < r.len() && #[trigger] r[i].id@ == k
    &&& ids_distinct(r)
    &&& ordered_by_id(r)
}

/// The catalog as a list of (id, names), in natural order of ids: each entry
/// once, and nothing else.
pub fn get_ism_list_from_map(map: &IsmMap) -> (r: Vec<IsmItem>)
    requires
        map.wf(),
    ensures
        is_listing(map@, r@),
{
    let es = &map.entries;
    let mut out: Vec<IsmItem> = Vec::new();
    let mut k: usize = 0;
    let ghost mut back: Seq<int> = Seq::empty();
    let ghost mut fwd: Seq<int> = Seq::empty();
    proof {
        reveal(items_from);
    }
    while k < es.len()
        invariant
            es == &map.entries,
            map.wf(),
            k <= es.len(),
            items_from(out@, es@, k as int, back, fwd),
            ids_distinct(out@),
            ordered_by_id(out@),
        decreases es.len() - k,
    {
        let x = IsmItem {
            id: es[k].0.clone(),
            ch_name: es[k].1.ch_name.clone(),
            en_name: es[k].1.en_name.clone(),
        };
        let mut pos: usize = out.len();
        let mut moving = pos > 0 && goes_after(&out[pos - 1], &x);
        assert(x@ == item_of(es@[k as int]));
        while moving
            invariant
                es == &map.entries,
                map.wf(),
                k < es.len(),
                x@ == item_of(es@[k as int]),
                items_from(out@, es@, k as int, back, fwd),
                ids_distinct(out@),
                ordered_by_id(out@),
                pos <= out.len(),
                moving ==> pos > 0 && natural_order(out@[pos - 1].id@, x.id@) == Ordering::Greater,
                !moving ==> pos == 0 || natural_order(out@[pos - 1].id@, x.id@) != Ordering::Greater,
                pos < out.len() ==> natural_order(out@[pos as int].id@, x.id@) == Ordering::Greater,
            decreases pos,
        {
            pos = pos - 1;
            moving = pos > 0 && goes_after(&out[pos - 1], &x);
        }
        proof {
            lemma_insert_items_from(es@, k as int, out@, pos as int, x, back, fwd);
            lemma_insert_distinct(es@, k as int, out@, pos as int, x, back, fwd);
            lemma_insert_ordered(out@, pos as int, x);
            back = back.insert(pos as int, k as int);
            fwd = shifted(fwd, pos as int).push(pos as int);
        }
        out.insert(pos, x);
        k = k + 1;
    }
    proof {
        lemma_items_cover(map, out@, back, fwd);
    }
    out
}

/// The full entry under `id`, or `None` where the catalog has no such id.
pub fn get_ism_detail_from_map(map: &IsmMap, id: &str) -> (r: Option<IsmEntry>)
    requires
        map.wf(),
    ensures
        r is Some <==> map@.contains_key(id@),
        r matches Some(e) ==> e@ == map@[id@],
{
    match map.get(&id.to_owned()) {
        Some(e) => Some(e.duplicate()),
        None => None,
    }
}


pub open spec fn appears_in(x: IsmItemView, r: Seq<IsmItem>) -> bool {
    exists|j: int| 0 <= j < r.len() && #[trigger] r[j]@ == x
}

/// Two listings of one catalog hold the same items: each item of one is an
/// item of the other, with the same id and names. Only ids that compare
/// equal in natural order may stand in another order.
pub proof fn lemma_listings_agree(m: Map<Seq<char>, IsmEntryView>, r1: Seq<IsmItem>, r2: Seq<IsmItem>)
    requires
        is_listing(m, r1),
        is_listing(m, r2),
    ensures
        forall|i: int| 0 <= i < r1.len() ==> appears_in(#[trigger] r1[i]@, r2),
{
    assert forall|i: int| 0 <= i < r1.len() implies appears_in(#[trigger] r1[i]@, r2) by {
        assert(m.contains_key(r1[i].id@));
        let j = choose|j: int| 0 <= j < r2.len() && #[trigger] r2[j].id@ == r1[i].id@;
        assert(m.contains_key(r2[j].id@));
        assert(r2[j]@ == r1[i]@);
    }
}

/// With distinct member keys: an id is in the catalog exactly when its member
/// is not `introduction` and describes an entry, and then holds that entry.
pub proof fn lemma_catalog_members(ms: Seq<(String, Json)>, i: int)
    requires
        member_keys_distinct(ms),
        0 <= i < ms.len(),
    ensures
        catalog_of(ms).contains_key(ms[i].0@) <==> (ms[i].0@ != "introduction"@ && entry_of(ms[i].1) is Some),
        catalog_of(ms).contains_key(ms[i].0@) ==> catalog_of(ms)[ms[i].0@] == entry_of(ms[i].1)->0,
    decreases ms.len(),
{
    let p = ms.drop_last();
    if i < ms.len() - 1 {
        assert(p[i] == ms[i]);
        assert(ms[i].0@ != ms[ms.len() - 1].0@);
        lemma_catalog_members(p, i);
    } else {
        lemma_catalog_absent(p, ms[i].0@);
    }
}

proof fn lemma_catalog_absent(ms: Seq<(String, Json)>, k: Seq<char>)
    requires
        forall|i: int| 0 <= i < ms.len() ==> #[trigger] ms[i].0@ != k,
    ensures
        !catalog_of(ms).contains_key(k),
    decreases ms.len(),
{
    if ms.len() > 0 {
        let p = ms.drop_last();
        assert forall|i: int| 0 <= i < p.len() implies #[trigger] p[i].0@ != k by {
            assert(p[i] == ms[i]);
        }
        lemma_catalog_absent(p, k);
    }
}

/// In a document whose members have distinct keys, a well-formed entry is
/// kept with what it describes, and a member whose object lacks the primary
/// name is left out, without failing the document.
pub proof fn lemma_parse_keeps_well_formed(ms: Seq<(String, Json)>, w: int, m: int)
    requires
        member_keys_distinct(ms),
        0 <= w < ms.len(),
        0 <= m < ms.len(),
        ms[w].0@ != "introduction"@,
        entry_of(ms[w].1) is Some,
        ms[m].1 is Object,
        member(ms[m].1->Object_0@, "ch_name"@) is None,
    ensures
        catalog_of(ms).contains_key(ms[w].0@),
        catalog_of(ms)[ms[w].0@] == entry_of(ms[w].1)->0,
        !catalog_of(ms).contains_key(ms[m].0@),
{
    lemma_catalog_members(ms, w);
    lemma_catalog_members(ms, m);
}

} // verus!

//! Progress records: a level from 0 to 4 and a time of update per entry id,
//! read from and written to one JSON document.
use crate::json::{find_member, member, parse_json_object, Json, json_object_of};
use crate::strmap::StrMap;
use vstd::prelude::*;

verus! {

/// The highest level: mastered.
pub const MAX_LEVEL: u8 = 4;

/// The progress on one entry.
#[derive(Debug, Clone, PartialEq, Eq)]
pub struct ProgressEntry {
    /// 0 unseen, 1 known, 2 learning, 3 grasped, 4 mastered.
    pub level: u8,
    pub updated_at: String,
}

pub struct ProgressEntryView {
    pub level: u8,
    pub updated_at: Seq<char>,
}

impl View for ProgressEntry {
    type V = ProgressEntryView;

    open spec fn view(&self) -> ProgressEntryView {
        ProgressEntryView { level: self.level, updated_at: self.updated_at@ }
    }
}

/// Progress by entry id.
pub type ProgressMap = StrMap<ProgressEntry>;

/// A level above `MAX_LEVEL` was given.
#[derive(Debug, Clone, PartialEq, Eq)]
pub struct ValidationError {
    pub message: String,
}

/// The record that a JSON value describes: an object whose `level` is an
/// integer from 0 to `MAX_LEVEL` and whose `updated_at` is a string.
pub open spec fn progress_entry_of(v: Json) -> Option<ProgressEntryView> {
    match v {
        Json::Object(ms) => match (member(ms@, "level"@), member(ms@, "updated_at"@)) {
            (Some(Json::Number(Some(n))), Some(Json::Str(t))) => if n <= MAX_LEVEL {
                Some(ProgressEntryView { level: n as u8, updated_at: t@ })
            } else {
                None
            },
            _ => None,
        },
        _ => None,
    }
}

/// The records that a document's members give, or `None` where one member
/// does not describe a record.
pub open spec fn progress_of(ms: Seq<(String, Json)>) -> Option<Map<Seq<char>, ProgressEntryView>>
    decreases ms.len(),
{
    if ms.len() == 0 {
        Some(Map::empty())
    } else {
        match (progress_of(ms.drop_last()), progress_entry_of(ms.last().1)) {
            (Some(m), Some(e)) => Some(m.insert(ms.last().0@, e)),
            _ => None,
        }
    }
}

/// What reading progress gives: the records of the document where there is
/// one, it is a JSON object and every member is a record; else no records.
pub open spec fn progress_from_text(s: Option<Seq<char>>) -> Map<Seq<char>, ProgressEntryView> {
    match s {
        Some(t) => match json_object_of(t) {
            Some(ms) => match progress_of(ms) {
                Some(m) => m,
                None => Map::empty(),
            },
            None => Map::empty(),
        },
        None => Map::empty(),
    }
}

/// The record that a JSON value describes, if it describes one.
pub fn progress_entry_from_json(v: &Json) -> (r: Option<ProgressEntry>)
    ensures
        r is Some <==> progress_entry_of(*v) is Some,
        r matches Some(e) ==> e@ == progress_entry_of(*v)->0,
{
    match v {
        Json::Object(ms) => {
            let level = find_member(ms, &"level".to_owned());
            let updated_at = find_member(ms, &"updated_at".to_owned());
            match (level, updated_at) {
                (Some(Json::Number(Some(n))), Some(Json::Str(t))) => {
                    if *n <= MAX_LEVEL as u64 {
                        Some(ProgressEntry { level: *n as u8, updated_at: t.clone() })
                    } else {
                        None
                    }
                },
                _ => None,
            }
        },
        _ => None,
    }
}

/// Reads the progress document, if there is one. Never fails: a missing
/// document, text that is not a JSON object, or a member that is not a
/// record all give no records.
pub fn get_progress(content: Option<&str>) -> (r: ProgressMap)
    ensures
        r.wf(),
        r@ == progress_from_text(
            match content {
                Some(t) => Some(t@),
                None => None,
            },
        ),
{
    let text: &str = match content {
        Some(t) => t,
        None => {
            return StrMap::new();
        },
    };
    let members = match parse_json_object(text) {
        Ok(m) => m,
        Err(_) => {
            return StrMap::new();
        },
    };
    let mut map: ProgressMap = StrMap::new();
    let mut i: usize = 0;
    assert(members@.take(0) =~= Seq::<(String, Json)>::empty());
    while i < members.len()
        invariant
            i <= members.len(),
            map.wf(),
            progress_of(members@.take(i as int)) == Some(map@),
            json_object_of(text@) == Some(members@),
            content == Some(text),
        decreases members.len() - i,
    {
        assert(members@.take(i + 1).drop_last() =~= members@.take(i as int));
        match progress_entry_from_json(&members[i].1) {
            Some(entry) => {
                map.insert(members[i].0.clone(), entry);
            },
            None => {
                proof {
                    lemma_progress_of_stops(members@, i as int);
                    assert(json_object_of(text@) == Some(members@));
                    assert(progress_from_text(Some(text@)) == Map::<Seq<char>, ProgressEntryView>::empty());
                }
                return StrMap::new();
            },
        }
        i = i + 1;
    }
    assert(members@.take(i as int) =~= members@);
    map
}

proof fn lemma_progress_of_stops(ms: Seq<(String, Json)>, i: int)
    requires
        0 <= i < ms.len(),
        progress_entry_of(ms[i].1) is None,
    ensures
        progress_of(ms) is None,
    decreases ms.len(),
{
    if i < ms.len() - 1 {
        assert(ms.drop_last()[i] == ms[i]);
        lemma_progress_of_stops(ms.drop_last(), i);
    }
}

/// Records `level` for `id` at time `updated_at`, replacing any earlier
/// record for `id`; a level above `MAX_LEVEL` is refused and nothing changes.
pub fn set_progress(map: &mut ProgressMap, id: String, level: u8, updated_at: String) -> (r: Result<
    (),
    ValidationError,
>)
    requires
        old(map).wf(),
    ensures
        final(map).wf(),
        r is Ok <==> level <= MAX_LEVEL,
        r is Ok ==> final(map)@ == old(map)@.insert(
            id@,
            ProgressEntryView { level, updated_at: updated_at@ },
        ),
        r is Err ==> final(map)@ == old(map)@,
{
    if level > MAX_LEVEL {
        return Err(ValidationError { message: "level must be between 0 and 4".to_owned() });
    }
    map.insert(id, ProgressEntry { level, updated_at });
    Ok(())
}

} // verus!

//! The catalog store: the live catalog, read through `list` and `detail`,
//! replaced only by a document that parses (`validate` tries one without
//! touching the store, `apply` commits it).
use crate::ism::{
    get_ism_detail_from_map, get_ism_list_from_map, is_listing, parse_ism_map_from_str,
    parsed_catalog, DocumentSyntaxError, IsmEntry, IsmEntryView, IsmItem, IsmMap, IsmUpdatePreview,
};
use crate::json::json_error_of;
use vstd::prelude::*;

verus! {

/// The catalog that a store starts with: the override document where there is
/// one and it parses, else the embedded document (`None` where that fails too).
pub open spec fn initial_catalog(
    override_text: Option<Seq<char>>,
    embedded: Seq<char>,
) -> Option<Map<Seq<char>, IsmEntryView>> {
    match override_text {
        Some(t) if parsed_catalog(t) is Some => parsed_catalog(t),
        _ => parsed_catalog(embedded),
    }
}

/// The catalog after `apply(content)` on a store that held `old`.
pub open spec fn applied(
    old: Map<Seq<char>, IsmEntryView>,
    content: Seq<char>,
) -> Map<Seq<char>, IsmEntryView> {
    match parsed_catalog(content) {
        Some(m) => m,
        None => old,
    }
}

pub open spec fn text_of_option(s: Option<&str>) -> Option<Seq<char>> {
    match s {
        Some(t) => Some(t@),
        None => None,
    }
}

/// The live catalog.
#[derive(Debug, Clone)]
pub struct IsmState {
    map: IsmMap,
}

impl View for IsmState {
    type V = Map<Seq<char>, IsmEntryView>;

    closed spec fn view(&self) -> Map<Seq<char>, IsmEntryView> {
        self.map@
    }
}

impl IsmState {
    pub closed spec fn wf(&self) -> bool {
        self.map.wf()
    }

    /// Starts from the override document where one is given and parses, else
    /// from the embedded document; fails only where the embedded one is used
    /// and does not parse.
    pub fn load_initial(override_text: Option<&str>, embedded: &str) -> (r: Result<
        IsmState,
        DocumentSyntaxError,
    >)
        ensures
            r is Ok <==> initial_catalog(text_of_option(override_text), embedded@) is Some,
            r matches Ok(st) ==> st.wf() && Some(st@) == initial_catalog(
                text_of_option(override_text),
                embedded@,
            ),
            r matches Err(e) ==> e.message@ == json_error_of(embedded@),
    {
        match override_text {
            Some(t) => match parse_ism_map_from_str(t) {
                Ok(map) => {
                    return Ok(IsmState { map });
                },
                Err(_) => {},
            },
            None => {},
        }
        match parse_ism_map_from_str(embedded) {
            Ok(map) => Ok(IsmState { map }),
            Err(e) => Err(e),
        }
    }

    /// The entries as (id, names), in natural order of ids.
    pub fn list(&self) -> (r: Vec<IsmItem>)
        requires
            self.wf(),
        ensures
            is_listing(self@, r@),
    {
        get_ism_list_from_map(&self.map)
    }

    /// The entry under `id`, or `None` where there is none.
    pub fn detail(&self, id: &str) -> (r: Option<IsmEntry>)
        requires
            self.wf(),
        ensures
            r is Some <==> self@.contains_key(id@),
            r matches Some(e) ==> e@ == self@[id@],
    {
        get_ism_detail_from_map(&self.map, id)
    }

    /// The number of entries.
    pub fn len(&self) -> (r: usize)
        requires
            self.wf(),
        ensures
            r == self@.len(),
    {
        self.map.len()
    }

    /// Parses `content` as a replacement catalog without touching any store,
    /// and tells how many entries it would hold.
    pub fn validate(content: &str) -> (r: Result<IsmUpdatePreview, DocumentSyntaxError>)
        ensures
            r is Ok <==> parsed_catalog(content@) is Some,
            r matches Ok(p) ==> p.entry_count == parsed_catalog(content@)->0.len(),
            r matches Err(e) ==> e.message@ == json_error_of(content@),
    {
        match parse_ism_map_from_str(content) {
            Ok(map) => Ok(IsmUpdatePreview { entry_count: map.len() }),
            Err(e) => Err(e),
        }
    }

    /// Replaces the catalog with the one that `content` gives; where `content`
    /// does not parse, returns the error and keeps the catalog as it was.
    pub fn apply(&mut self, content: &str) -> (r: Result<(), DocumentSyntaxError>)
        requires
            old(self).wf(),
        ensures
            final(self).wf(),
            r is Ok <==> parsed_catalog(content@) is Some,
            final(self)@ == applied(old(self)@, content@),
            r matches Err(e) ==> e.message@ == json_error_of(content@),
    {
        match parse_ism_map_from_str(content) {
            Ok(map) => {
                self.map = map;
                Ok(())
            },
            Err(e) => Err(e),
        }
    }
}

/// A store loaded afresh from a document that `apply` committed holds the same
/// catalog as the store that committed it, whatever it held before and
/// whatever the embedded document is.
pub proof fn lemma_reload_after_apply(
    old: Map<Seq<char>, IsmEntryView>,
    content: Seq<char>,
    embedded: Seq<char>,
)
    requires
        parsed_catalog(content) is Some,
    ensures
        initial_catalog(Some(content), embedded) == Some(applied(old, content)),
{
}

/// A document that does not parse leaves the catalog as it was.
pub proof fn lemma_failed_apply_keeps(old: Map<Seq<char>, IsmEntryView>, content: Seq<char>)
    requires
        parsed_catalog(content) is None,
    ensures
        applied(old, content) == old,
{
}

} // verus!

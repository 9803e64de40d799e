//! The maps of the cache, kept in the `dashmap` crate's `DashMap`.
//!
//! A `DashMap` can be changed through a shared reference. Here whatever changes one
//! takes it by `&mut`, so that what a map holds changes only in plain sight.

use dashmap::DashMap;
use vstd::prelude::*;

use crate::ast_engine::{FileLayout, FileView};

verus! {

#[verifier::external_type_specification]
#[verifier::external_body]
#[verifier::reject_recursive_types(K)]
#[verifier::reject_recursive_types(V)]
#[verifier::reject_recursive_types(S)]
pub struct ExDashMap<K, V, S>(dashmap::DashMap<K, V, S>);

/// What a map of layouts holds.
pub uninterp spec fn layout_entries(map: DashMap<String, FileLayout>) -> Map<Seq<char>, FileView>;

/// What a map of importers holds.
pub uninterp spec fn importer_entries(map: DashMap<String, Vec<String>>) -> Map<
    Seq<char>,
    Seq<Seq<char>>,
>;

/// `DashMap::new`: a map of layouts that holds nothing.
#[verifier::external_body]
pub(crate) fn no_layouts() -> (r: DashMap<String, FileLayout>)
    ensures
        layout_entries(r).dom() == Set::<Seq<char>>::empty(),
{
    DashMap::new()
}

/// `DashMap::len`: how many layouts the map holds.
#[verifier::external_body]
pub(crate) fn count_layouts(map: &DashMap<String, FileLayout>) -> (r: usize)
    ensures
        r == layout_entries(*map).len(),
{
    map.len()
}

/// `DashMap::get`: a copy of the layout under `key`, where there is one.
#[verifier::external_body]
pub(crate) fn find_layout(map: &DashMap<String, FileLayout>, key: &str) -> (r: Option<FileLayout>)
    ensures
        match r {
            Some(layout) => layout_entries(*map).contains_key(key@) && layout_entries(*map)[key@]
                == layout.deep_view(),
            None => !layout_entries(*map).contains_key(key@),
        },
{
    map.get(key).map(|entry| entry.value().clone())
}

/// `DashMap::insert`: puts the layout under `key`, in place of what was there.
#[verifier::external_body]
pub(crate) fn put_layout(map: &mut DashMap<String, FileLayout>, key: String, layout: FileLayout)
    ensures
        layout_entries(*final(map)) == layout_entries(*old(map)).insert(key@, layout.deep_view()),
{
    map.insert(key, layout);
}

/// `DashMap::remove`: takes out the layout under `key`, where there is one.
#[verifier::external_body]
pub(crate) fn take_layout(map: &mut DashMap<String, FileLayout>, key: &str) -> (r: Option<
    FileLayout,
>)
    ensures
        layout_entries(*final(map)) == layout_entries(*old(map)).remove(key@),
        match r {
            Some(layout) => layout_entries(*old(map)).contains_key(key@) && layout_entries(
                *old(map),
            )[key@] == layout.deep_view(),
            None => !layout_entries(*old(map)).contains_key(key@),
        },
{
    map.remove(key).map(|entry| entry.1)
}

/// `DashMap::new`: a map of importers that holds nothing.
#[verifier::external_body]
pub(crate) fn no_importers() -> (r: DashMap<String, Vec<String>>)
    ensures
        importer_entries(r).dom() == Set::<Seq<char>>::empty(),
{
    DashMap::new()
}

/// `DashMap::get`: a copy of the importers under `key`, where there are any.
#[verifier::external_body]
pub(crate) fn find_importers(map: &DashMap<String, Vec<String>>, key: &str) -> (r: Option<
    Vec<String>,
>)
    ensures
        match r {
            Some(importers) => importer_entries(*map).contains_key(key@) && importer_entries(
                *map,
            )[key@] == importers.deep_view(),
            None => !importer_entries(*map).contains_key(key@),
        },
{
    map.get(key).map(|entry| entry.value().clone())
}

/// `DashMap::insert`: puts the importers under `key`, in place of what was there.
#[verifier::external_body]
pub(crate) fn put_importers(
    map: &mut DashMap<String, Vec<String>>,
    key: String,
    importers: Vec<String>,
)
    ensures
        importer_entries(*final(map)) == importer_entries(*old(map)).insert(
            key@,
            importers.deep_view(),
        ),
{
    map.insert(key, importers);
}

/// `DashMap::remove`: takes out the importers under `key`, where there are any.
#[verifier::external_body]
pub(crate) fn drop_importers(map: &mut DashMap<String, Vec<String>>, key: &str)
    ensures
        importer_entries(*final(map)) == importer_entries(*old(map)).remove(key@),
{
    map.remove(key);
}

}

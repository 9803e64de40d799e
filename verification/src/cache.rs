//! Incremental dependency graph cache for near-O(1) LSP feedback loops.
//!
//! Stores per-file [`FileLayout`] snapshots and a reverse import index so that a
//! single edit only re-parses the changed file and re-validates it plus immediate
//! dependents (files that import it).

use std::sync::Arc;

use dashmap::DashMap;
use vstd::prelude::*;
use vstd::string::StringExecFns;

use crate::ast_engine;
use crate::ast_engine::{AstEngine, AstExtractor, FileLayout, FileView, ImportView};
use crate::config::CompiledConfigView;
use crate::error::AddResult;
use crate::path;
use crate::path::{
    has_file_name, is_rooted, normalize_path, path_extension, path_identity, resolve_import_path,
};
use crate::store;
use crate::store::{
    count_layouts, drop_importers, find_importers, find_layout, no_importers, no_layouts,
    put_importers, put_layout, take_layout,
};
use crate::syntax;
use crate::text;
use crate::text::{contains_text, drop_suffixes, has_suffix, same_text};
use crate::validator;
use crate::validator::{Validator, Violation, ViolationView};

verus! {

/// Result of an incremental cache update.
#[derive(Debug)]
pub struct CacheUpdateResult {
    pub diagnostics: Vec<(String, Vec<Violation>)>,
    pub files_reparsed: usize,
    pub files_revalidated: usize,
}

#[verifier::ext_equal]
pub struct UpdateView {
    pub diagnostics: Seq<(Seq<char>, Seq<ViolationView>)>,
    pub files_reparsed: nat,
    pub files_revalidated: nat,
}

impl View for CacheUpdateResult {
    type V = UpdateView;

    open spec fn view(&self) -> UpdateView {
        UpdateView {
            diagnostics: self.diagnostics.deep_view(),
            files_reparsed: self.files_reparsed as nat,
            files_revalidated: self.files_revalidated as nat,
        }
    }
}

impl Default for CacheUpdateResult {
    fn default() -> (r: CacheUpdateResult)
        ensures
            r@ == (UpdateView {
                diagnostics: Seq::empty(),
                files_reparsed: 0,
                files_revalidated: 0,
            }),
    {
        let r = CacheUpdateResult {
            diagnostics: Vec::new(),
            files_reparsed: 0,
            files_revalidated: 0,
        };
        assert(r@.diagnostics =~= Seq::empty());
        r
    }
}

/// In-memory structural layout cache with reverse dependency tracking.
pub struct ArchitectureCache {
    layouts: DashMap<String, FileLayout>,
    importers: DashMap<String, Vec<String>>,
    validator: Arc<Validator>,
}

/// What a cache knows: the layouts by the keys of their files, and by the key of each
/// import target the keys of the files that import it.
#[verifier::ext_equal]
pub struct CacheView {
    pub layouts: Map<Seq<char>, FileView>,
    pub importers: Map<Seq<char>, Seq<Seq<char>>>,
    pub config: CompiledConfigView,
}

impl View for ArchitectureCache {
    type V = CacheView;

    closed spec fn view(&self) -> CacheView {
        CacheView {
            layouts: store::layout_entries(self.layouts),
            importers: store::importer_entries(self.importers),
            config: self.validator@,
        }
    }
}

/// The key of a file: the one spelling of its normalized path.
pub open spec fn key_of(file_path: Seq<char>) -> Seq<char> {
    path::identity(path::normalized(file_path))
}

/// The module that an import of a file leads to. It lies where the file lies: under the
/// root for a file whose path starts there. An import from the project root may, in
/// such a file, mean either.
pub open spec fn modules(file_path: Seq<char>, import_path: Seq<char>) -> Seq<Seq<char>> {
    match path::resolved_import(file_path, import_path) {
        Some(base) => if !path::rooted(path::normalized(file_path)) {
            seq![base]
        } else if path::rooted(import_path) {
            seq![base, seq!['/'] + base]
        } else {
            seq![seq!['/'] + base]
        },
        None => Seq::empty(),
    }
}

/// The files that a module may mean: the one at its path, and, where that is a name
/// without an extension, the TypeScript file and the TSX file of that name.
pub open spec fn module_files(module: Seq<char>) -> Seq<Seq<char>> {
    if path::file_name(module) is Some && path::extension(module) is None {
        seq![module, module + ".ts"@, module + ".tsx"@]
    } else {
        seq![module]
    }
}

pub open spec fn files_of(modules: Seq<Seq<char>>) -> Seq<Seq<char>>
    decreases modules.len(),
{
    if modules.len() == 0 {
        Seq::empty()
    } else {
        files_of(modules.drop_last()) + module_files(modules.last())
    }
}

/// Whether an import in the file at `file_path` names the file at `target`.
pub open spec fn names_file(
    file_path: Seq<char>,
    import_path: Seq<char>,
    target: Seq<char>,
) -> bool {
    exists|i: int|
        0 <= i < files_of(modules(file_path, import_path)).len() && key_of(
            #[trigger] files_of(modules(file_path, import_path))[i],
        ) == key_of(target)
}

pub open spec fn keys_of(files: Seq<Seq<char>>) -> Seq<Seq<char>> {
    Seq::new(files.len(), |i: int| key_of(files[i]))
}

/// The keys under which an import's target is indexed: those of the files that it may
/// mean.
pub open spec fn target_keys(file_path: Seq<char>, import_path: Seq<char>) -> Seq<Seq<char>> {
    keys_of(files_of(modules(file_path, import_path)))
}

/// The keys of what the imports of a file lead to.
pub open spec fn targets(file_path: Seq<char>, imports: Seq<ImportView>) -> Seq<Seq<char>>
    decreases imports.len(),
{
    if imports.len() == 0 {
        Seq::empty()
    } else {
        targets(file_path, imports.drop_last()) + target_keys(file_path, imports.last().path)
    }
}

/// The importers under `key`.
pub open spec fn importers_under(
    importers: Map<Seq<char>, Seq<Seq<char>>>,
    key: Seq<char>,
) -> Seq<Seq<char>> {
    if importers.contains_key(key) {
        importers[key]
    } else {
        Seq::empty()
    }
}

pub open spec fn with_item(items: Seq<Seq<char>>, item: Seq<char>) -> Seq<Seq<char>> {
    if items.contains(item) {
        items
    } else {
        items.push(item)
    }
}

pub open spec fn without_item(items: Seq<Seq<char>>, item: Seq<char>) -> Seq<Seq<char>>
    decreases items.len(),
{
    if items.len() == 0 {
        Seq::empty()
    } else if items.last() == item {
        without_item(items.drop_last(), item)
    } else {
        without_item(items.drop_last(), item).push(items.last())
    }
}

/// The index once `importer` is listed under each of `keys`.
pub open spec fn with_edges(
    importers: Map<Seq<char>, Seq<Seq<char>>>,
    keys: Seq<Seq<char>>,
    importer: Seq<char>,
) -> Map<Seq<char>, Seq<Seq<char>>>
    decreases keys.len(),
{
    if keys.len() == 0 {
        importers
    } else {
        let before = with_edges(importers, keys.drop_last(), importer);
        before.insert(keys.last(), with_item(importers_under(before, keys.last()), importer))
    }
}

/// The index once `importer` is listed under none of `keys`; a key under which nobody
/// is left goes.
pub open spec fn without_edges(
    importers: Map<Seq<char>, Seq<Seq<char>>>,
    keys: Seq<Seq<char>>,
    importer: Seq<char>,
) -> Map<Seq<char>, Seq<Seq<char>>>
    decreases keys.len(),
{
    if keys.len() == 0 {
        importers
    } else {
        let before = without_edges(importers, keys.drop_last(), importer);
        if before.contains_key(keys.last()) {
            let rest = without_item(before[keys.last()], importer);
            if rest.len() == 0 {
                before.remove(keys.last())
            } else {
                before.insert(keys.last(), rest)
            }
        } else {
            before
        }
    }
}

/// The keys under which importers of a file may be listed.
pub open spec fn variant_keys(file_path: Seq<char>) -> Seq<Seq<char>> {
    let normalized = path::normalized(file_path);
    if text::ends_with(normalized, ".ts"@) {
        seq![path::identity(normalized), path::identity(text::without_suffixes(normalized, ".ts"@))]
    } else if text::ends_with(normalized, ".tsx"@) {
        seq![path::identity(normalized), path::identity(text::without_suffixes(normalized, ".tsx"@))]
    } else {
        seq![
            path::identity(normalized),
            path::identity(normalized + ".ts"@),
            path::identity(normalized + ".tsx"@),
        ]
    }
}

pub open spec fn with_items(items: Seq<Seq<char>>, more: Seq<Seq<char>>) -> Seq<Seq<char>>
    decreases more.len(),
{
    if more.len() == 0 {
        items
    } else {
        with_item(with_items(items, more.drop_last()), more.last())
    }
}

/// The changed file, then those that import it under one of `keys`.
pub open spec fn dependents(
    importers: Map<Seq<char>, Seq<Seq<char>>>,
    key: Seq<char>,
    keys: Seq<Seq<char>>,
) -> Seq<Seq<char>>
    decreases keys.len(),
{
    if keys.len() == 0 {
        seq![key]
    } else {
        with_items(
            dependents(importers, key, keys.drop_last()),
            importers_under(importers, keys.last()),
        )
    }
}

/// The files to validate again after a change of a file.
pub open spec fn affected(importers: Map<Seq<char>, Seq<Seq<char>>>, file_path: Seq<char>) -> Seq<
    Seq<char>,
> {
    dependents(importers, key_of(file_path), variant_keys(file_path))
}

/// The violations of each of `keys` whose layout is known.
pub open spec fn revalidated(
    config: CompiledConfigView,
    layouts: Map<Seq<char>, FileView>,
    keys: Seq<Seq<char>>,
) -> Seq<(Seq<char>, Seq<ViolationView>)>
    decreases keys.len(),
{
    if keys.len() == 0 {
        Seq::empty()
    } else {
        let before = revalidated(config, layouts, keys.drop_last());
        let key = keys.last();
        if layouts.contains_key(key) {
            before.push((key, validator::file_violations(config, layouts[key])))
        } else {
            before
        }
    }
}

/// The index without what the layout known under `key` put there.
pub open spec fn forgotten(state: CacheView, key: Seq<char>) -> Map<Seq<char>, Seq<Seq<char>>> {
    if state.layouts.contains_key(key) {
        without_edges(
            state.importers,
            targets(state.layouts[key].file_path, state.layouts[key].imports),
            key,
        )
    } else {
        state.importers
    }
}

/// The cache once a file has that layout.
pub open spec fn changed(state: CacheView, file: FileView) -> CacheView {
    let key = key_of(file.file_path);
    CacheView {
        layouts: state.layouts.insert(key, file),
        importers: with_edges(
            forgotten(state, key),
            targets(file.file_path, file.imports),
            key,
        ),
        config: state.config,
    }
}

/// What a change of a file to that layout gives.
pub open spec fn update_after(state: CacheView, file: FileView) -> UpdateView {
    let after = changed(state, file);
    let keys = affected(after.importers, file.file_path);
    UpdateView {
        diagnostics: revalidated(after.config, after.layouts, keys),
        files_reparsed: 1,
        files_revalidated: keys.len(),
    }
}

/// The cache once a file is gone.
pub open spec fn removed(state: CacheView, file_path: Seq<char>) -> CacheView {
    let key = key_of(file_path);
    CacheView {
        layouts: state.layouts.remove(key),
        importers: forgotten(state, key),
        config: state.config,
    }
}

fn push_text(items: &mut Vec<String>, item: String)
    ensures
        final(items).deep_view() == old(items).deep_view().push(item@),
{
    items.push(item);
    assert(items.deep_view() =~= old(items).deep_view().push(item@));
}

/// Adds `item` unless it is there.
fn push_distinct(items: &mut Vec<String>, item: &str)
    ensures
        final(items).deep_view() == with_item(old(items).deep_view(), item@),
{
    let slice = items.as_slice();
    assert(slice.deep_view() =~= items.deep_view());
    if !contains_text(slice, item) {
        push_text(items, item.to_owned());
    }
}

fn remove_text(items: &Vec<String>, item: &str) -> (r: Vec<String>)
    ensures
        r.deep_view() == without_item(items.deep_view(), item@),
{
    let mut rest: Vec<String> = Vec::new();
    let ghost all = items.deep_view();
    let mut i: usize = 0;
    assert(rest.deep_view() =~= without_item(all.take(0), item@));
    while i < items.len()
        invariant
            i <= items@.len(),
            all == items.deep_view(),
            rest.deep_view() == without_item(all.take(i as int), item@),
        decreases items@.len() - i,
    {
        proof {
            assert(all.take(i + 1).drop_last() == all.take(i as int));
            assert(all.take(i + 1).last() == items@[i as int]@);
        }
        if !same_text(items[i].as_str(), item) {
            push_text(&mut rest, items[i].clone());
        }
        i += 1;
    }
    assert(all.take(i as int) == all);
    rest
}

/// The modules that an import may lead to.
fn import_modules(file_path: &str, import_path: &str) -> (r: Vec<String>)
    ensures
        r.deep_view() == modules(file_path@, import_path@),
{
    let mut found: Vec<String> = Vec::new();
    assert(found.deep_view() =~= Seq::<Seq<char>>::empty());
    let base = match resolve_import_path(file_path, import_path) {
        Some(base) => base,
        None => return found,
    };
    if !is_rooted(normalize_path(file_path).as_str()) {
        push_text(&mut found, base);
    } else {
        let mut from_root: String = String::new();
        from_root.push('/');
        from_root.append(base.as_str());
        assert(from_root@ =~= seq!['/'] + base@);
        if is_rooted(import_path) {
            push_text(&mut found, base);
        }
        push_text(&mut found, from_root);
    }
    assert(found.deep_view() =~= modules(file_path@, import_path@));
    found
}

/// Build index keys for an import target, including extension variants.
fn import_target_keys(file_path: &str, import_path: &str) -> (r: Vec<String>)
    ensures
        r.deep_view() == target_keys(file_path@, import_path@),
{
    let found = import_modules(file_path, import_path);
    let ghost all = found.deep_view();
    let mut keys: Vec<String> = Vec::new();
    let mut i: usize = 0;
    assert(keys.deep_view() =~= keys_of(files_of(all.take(0))));
    while i < found.len()
        invariant
            i <= found@.len(),
            all == found.deep_view(),
            keys.deep_view() == keys_of(files_of(all.take(i as int))),
        decreases found@.len() - i,
    {
        let ghost before = keys.deep_view();
        let module = &found[i];
        proof {
            assert(all.take(i + 1).drop_last() == all.take(i as int));
            assert(all.take(i + 1).last() == module@);
        }
        push_text(&mut keys, ArchitectureCache::cache_key(module.as_str()));
        if has_file_name(module.as_str()) && path_extension(module.as_str()).is_none() {
            let script = module.clone().concat(".ts");
            push_text(&mut keys, ArchitectureCache::cache_key(script.as_str()));
            let component = module.clone().concat(".tsx");
            push_text(&mut keys, ArchitectureCache::cache_key(component.as_str()));
        }
        assert(keys.deep_view() =~= before + keys_of(module_files(module@)));
        assert(keys.deep_view() =~= keys_of(files_of(all.take(i + 1))));
        i += 1;
    }
    assert(all.take(i as int) == all);
    keys
}

/// The index keys of everything that `layout` imports.
fn layout_targets(layout: &FileLayout) -> (r: Vec<String>)
    ensures
        r.deep_view() == targets(layout.file_path@, layout.imports.deep_view()),
{
    let mut keys: Vec<String> = Vec::new();
    let ghost imports = layout.imports.deep_view();
    let mut i: usize = 0;
    assert(keys.deep_view() =~= targets(layout.file_path@, imports.take(0)));
    while i < layout.imports.len()
        invariant
            i <= layout.imports@.len(),
            imports == layout.imports.deep_view(),
            keys.deep_view() == targets(layout.file_path@, imports.take(i as int)),
        decreases layout.imports@.len() - i,
    {
        proof {
            assert(imports.take(i + 1).drop_last() == imports.take(i as int));
            assert(imports.take(i + 1).last() == layout.imports@[i as int].deep_view());
        }
        let ghost before = keys.deep_view();
        let mut more = import_target_keys(
            layout.file_path.as_str(),
            layout.imports[i].path.as_str(),
        );
        let ghost added = more.deep_view();
        keys.append(&mut more);
        assert(keys.deep_view() =~= before + added);
        i += 1;
    }
    assert(imports.take(i as int) == imports);
    keys
}

fn extension_variants(path: &str) -> (r: Vec<String>)
    ensures
        r.deep_view() == variant_keys(path@),
{
    let mut variants: Vec<String> = Vec::new();
    let normalized = normalize_path(path);
    push_text(&mut variants, path_identity(normalized.as_str()));
    if has_suffix(normalized.as_str(), ".ts") {
        push_text(
            &mut variants,
            path_identity(drop_suffixes(normalized.as_str(), ".ts").as_str()),
        );
    } else if has_suffix(normalized.as_str(), ".tsx") {
        push_text(
            &mut variants,
            path_identity(drop_suffixes(normalized.as_str(), ".tsx").as_str()),
        );
    } else {
        push_text(&mut variants, path_identity(normalized.clone().concat(".ts").as_str()));
        push_text(&mut variants, path_identity(normalized.concat(".tsx").as_str()));
    }
    assert(variants.deep_view() =~= variant_keys(path@));
    variants
}

/// Lists `importer` under everything that `layout` imports.
fn add_outgoing_edges(
    importers: &mut DashMap<String, Vec<String>>,
    importer: &str,
    layout: &FileLayout,
)
    ensures
        store::importer_entries(*final(importers)) == with_edges(
            store::importer_entries(*old(importers)),
            targets(layout.file_path@, layout.imports.deep_view()),
            importer@,
        ),
{
    let keys = layout_targets(layout);
    let ghost all = keys.deep_view();
    let ghost start = store::importer_entries(*importers);
    let mut i: usize = 0;
    while i < keys.len()
        invariant
            i <= keys@.len(),
            all == keys.deep_view(),
            store::importer_entries(*importers) == with_edges(
                start,
                all.take(i as int),
                importer@,
            ),
        decreases keys@.len() - i,
    {
        proof {
            assert(all.take(i + 1).drop_last() == all.take(i as int));
            assert(all.take(i + 1).last() == keys@[i as int]@);
        }
        let mut listed = match find_importers(importers, keys[i].as_str()) {
            Some(listed) => listed,
            None => Vec::new(),
        };
        assert(listed.deep_view() =~= importers_under(
            store::importer_entries(*importers),
            all[i as int],
        ));
        push_distinct(&mut listed, importer);
        put_importers(importers, keys[i].clone(), listed);
        i += 1;
    }
    assert(all.take(i as int) == all);
}

/// Lists `importer` no more under what `layout` imports.
fn remove_outgoing_edges(
    importers: &mut DashMap<String, Vec<String>>,
    importer: &str,
    layout: &FileLayout,
)
    ensures
        store::importer_entries(*final(importers)) == without_edges(
            store::importer_entries(*old(importers)),
            targets(layout.file_path@, layout.imports.deep_view()),
            importer@,
        ),
{
    let keys = layout_targets(layout);
    let ghost all = keys.deep_view();
    let ghost start = store::importer_entries(*importers);
    let mut i: usize = 0;
    while i < keys.len()
        invariant
            i <= keys@.len(),
            all == keys.deep_view(),
            store::importer_entries(*importers) == without_edges(
                start,
                all.take(i as int),
                importer@,
            ),
        decreases keys@.len() - i,
    {
        proof {
            assert(all.take(i + 1).drop_last() == all.take(i as int));
            assert(all.take(i + 1).last() == keys@[i as int]@);
        }
        if let Some(listed) = find_importers(importers, keys[i].as_str()) {
            let rest = remove_text(&listed, importer);
            if rest.len() == 0 {
                drop_importers(importers, keys[i].as_str());
            } else {
                put_importers(importers, keys[i].clone(), rest);
            }
        }
        i += 1;
    }
    assert(all.take(i as int) == all);
}

impl ArchitectureCache {
    pub fn new(validator: Validator) -> (r: ArchitectureCache)
        ensures
            r@ == (CacheView {
                layouts: Map::empty(),
                importers: Map::empty(),
                config: validator@,
            }),
            reached(r@),
    {
        ArchitectureCache::with_shared_validator(Arc::new(validator))
    }

    pub fn with_shared_validator(validator: Arc<Validator>) -> (r: ArchitectureCache)
        ensures
            r@ == (CacheView {
                layouts: Map::empty(),
                importers: Map::empty(),
                config: validator@,
            }),
            reached(r@),
    {
        let r = ArchitectureCache {
            layouts: no_layouts(),
            importers: no_importers(),
            validator,
        };
        assert(r@.layouts =~= Map::empty());
        assert(r@.importers =~= Map::empty());
        proof {
            a_new_cache_is_reached(r@.config);
        }
        r
    }

    pub fn layout_count(&self) -> (r: usize)
        ensures
            r == self@.layouts.len(),
    {
        count_layouts(&self.layouts)
    }

    pub fn get_layout(&self, path: &str) -> (r: Option<FileLayout>)
        ensures
            r.deep_view() == (if self@.layouts.contains_key(key_of(path@)) {
                Some(self@.layouts[key_of(path@)])
            } else {
                None
            }),
    {
        find_layout(&self.layouts, ArchitectureCache::cache_key(path).as_str())
    }

    /// The keys of the files that are known to import the file at `path`.
    pub fn importers_of(&self, path: &str) -> (r: Vec<String>)
        ensures
            r.deep_view() == importers_under(self@.importers, key_of(path@)),
    {
        match find_importers(&self.importers, ArchitectureCache::cache_key(path).as_str()) {
            Some(importers) => importers,
            None => {
                let none: Vec<String> = Vec::new();
                assert(none.deep_view() =~= Seq::<Seq<char>>::empty());
                none
            },
        }
    }

    /// Remove a file from the cache (e.g. on `textDocument/didClose`).
    pub fn remove_file(&mut self, path: &str)
        ensures
            final(self)@ == removed(old(self)@, path@),
            reached(old(self)@) ==> reached(final(self)@),
    {
        let key = ArchitectureCache::cache_key(path);
        if let Some(layout) = take_layout(&mut self.layouts, key.as_str()) {
            remove_outgoing_edges(&mut self.importers, key.as_str(), &layout);
        }
        assert(self@ =~= removed(old(self)@, path@));
        proof {
            if reached(old(self)@) {
                a_reduced_cache_is_reached(old(self)@, path@);
            }
        }
    }

    /// Re-parse the changed file, refresh the dependency graph, and re-validate
    /// the changed file plus its immediate dependents.
    pub fn process_change(&mut self, changed_path: &str, source: &str) -> (r: AddResult<
        CacheUpdateResult,
    >)
        requires
            syntax::fits_parser(source@),
        ensures
            reached(old(self)@) ==> reached(final(self)@),
            ({
                let language = syntax::language_of(ast_engine::grammar_for(changed_path@));
                match ast_engine::engine_problem(language) {
                    Some(problem) => final(self)@ == old(self)@ && (r matches Err(error)
                        && error@ == problem),
                    None => match ast_engine::parsed(language, changed_path@, source@) {
                        Ok(file) => final(self)@ == changed(old(self)@, file) && (r matches Ok(
                            update,
                        ) && update@ == update_after(old(self)@, file)),
                        Err(problem) => final(self)@ == old(self)@ && (r matches Err(error)
                            && error@ == problem),
                    },
                }
            }),
    {
        let mut engine = match AstEngine::for_path(changed_path) {
            Ok(engine) => engine,
            Err(error) => return Err(error),
        };
        match engine.extract_file(changed_path, source) {
            Ok(new_layout) => self.apply_layout(new_layout),
            Err(error) => Err(error),
        }
    }

    /// Takes the new layout of a file into the cache, and re-validates that file plus
    /// its immediate dependents.
    pub fn apply_layout(&mut self, new_layout: FileLayout) -> (r: AddResult<CacheUpdateResult>)
        ensures
            final(self)@ == changed(old(self)@, new_layout.deep_view()),
            reached(old(self)@) ==> reached(final(self)@),
            r matches Ok(update) && update@ == update_after(
                old(self)@,
                new_layout.deep_view(),
            ),
    {
        let changed_path = new_layout.file_path.clone();
        let key = ArchitectureCache::cache_key(changed_path.as_str());
        if let Some(known) = find_layout(&self.layouts, key.as_str()) {
            remove_outgoing_edges(&mut self.importers, key.as_str(), &known);
        }
        add_outgoing_edges(&mut self.importers, key.as_str(), &new_layout);
        put_layout(&mut self.layouts, key, new_layout);
        assert(self@ =~= changed(old(self)@, new_layout.deep_view()));
        proof {
            if reached(old(self)@) {
                a_changed_cache_is_reached(old(self)@, new_layout.deep_view());
            }
        }
        let keys = self.affected_files(changed_path.as_str());
        let diagnostics = match self.revalidate(&keys) {
            Ok(diagnostics) => diagnostics,
            Err(error) => return Err(error),
        };
        Ok(CacheUpdateResult { diagnostics, files_reparsed: 1, files_revalidated: keys.len() })
    }

    /// The keys of the files to validate again after a change of the file at `path`.
    fn affected_files(&self, path: &str) -> (r: Vec<String>)
        ensures
            r.deep_view() == affected(self@.importers, path@),
    {
        let variants = extension_variants(path);
        let ghost all = variants.deep_view();
        let ghost key = key_of(path@);
        let mut found: Vec<String> = Vec::new();
        push_text(&mut found, ArchitectureCache::cache_key(path));
        let mut i: usize = 0;
        assert(found.deep_view() =~= dependents(self@.importers, key, all.take(0)));
        while i < variants.len()
            invariant
                i <= variants@.len(),
                all == variants.deep_view(),
                found.deep_view() == dependents(self@.importers, key, all.take(i as int)),
            decreases variants@.len() - i,
        {
            proof {
                assert(all.take(i + 1).drop_last() == all.take(i as int));
                assert(all.take(i + 1).last() == variants@[i as int]@);
            }
            if let Some(importers) = find_importers(&self.importers, variants[i].as_str()) {
                push_all_distinct(&mut found, &importers);
            }
            i += 1;
        }
        assert(all.take(i as int) == all);
        found
    }

    /// The violations of each of `keys` whose layout is known.
    fn revalidate(&self, keys: &Vec<String>) -> (r: AddResult<Vec<(String, Vec<Violation>)>>)
        ensures
            r matches Ok(diagnostics) && diagnostics.deep_view() == revalidated(
                self@.config,
                self@.layouts,
                keys.deep_view(),
            ),
    {
        let mut diagnostics: Vec<(String, Vec<Violation>)> = Vec::new();
        let ghost all = keys.deep_view();
        let mut i: usize = 0;
        assert(diagnostics.deep_view() =~= revalidated(
            self@.config,
            self@.layouts,
            all.take(0),
        ));
        while i < keys.len()
            invariant
                i <= keys@.len(),
                all == keys.deep_view(),
                diagnostics.deep_view() == revalidated(
                    self@.config,
                    self@.layouts,
                    all.take(i as int),
                ),
            decreases keys@.len() - i,
        {
            proof {
                assert(all.take(i + 1).drop_last() == all.take(i as int));
                assert(all.take(i + 1).last() == keys@[i as int]@);
            }
            if let Some(layout) = find_layout(&self.layouts, keys[i].as_str()) {
                let violations = match self.validator.validate_file_layout(&layout) {
                    Ok(violations) => violations,
                    Err(error) => return Err(error),
                };
                let ghost before = diagnostics.deep_view();
                let entry = (keys[i].clone(), violations);
                diagnostics.push(entry);
                assert(diagnostics.deep_view() =~= before.push(entry.deep_view()));
            }
            i += 1;
        }
        assert(all.take(i as int) == all);
        Ok(diagnostics)
    }

    fn cache_key(path: &str) -> (r: String)
        ensures
            r@ == key_of(path@),
    {
        path_identity(normalize_path(path).as_str())
    }
}

fn push_all_distinct(items: &mut Vec<String>, more: &Vec<String>)
    ensures
        final(items).deep_view() == with_items(old(items).deep_view(), more.deep_view()),
{
    let ghost all = more.deep_view();
    let ghost start = items.deep_view();
    let mut i: usize = 0;
    while i < more.len()
        invariant
            i <= more@.len(),
            all == more.deep_view(),
            items.deep_view() == with_items(start, all.take(i as int)),
        decreases more@.len() - i,
    {
        proof {
            assert(all.take(i + 1).drop_last() == all.take(i as int));
            assert(all.take(i + 1).last() == more@[i as int]@);
        }
        push_distinct(items, more[i].as_str());
        i += 1;
    }
    assert(all.take(i as int) == all);
}

/// No item occurs twice.
pub open spec fn distinct(items: Seq<Seq<char>>) -> bool {
    forall|i: int, j: int| 0 <= i < j < items.len() ==> (#[trigger] items[i]) != (#[trigger] items[j])
}

proof fn lemma_with_item(items: Seq<Seq<char>>, item: Seq<char>, x: Seq<char>)
    ensures
        with_item(items, item).contains(x) <==> items.contains(x) || x == item,
        with_item(items, item).len() > 0,
        distinct(items) ==> distinct(with_item(items, item)),
{
    if items.contains(item) {
        let k = choose|k: int| 0 <= k < items.len() && items[k] == item;
    } else {
        let more = items.push(item);
        assert(more[items.len() as int] == item);
        if items.contains(x) {
            let k = choose|k: int| 0 <= k < items.len() && items[k] == x;
            assert(more[k] == x);
        }
        if more.contains(x) && x != item {
            let k = choose|k: int| 0 <= k < more.len() && more[k] == x;
            assert(items[k] == x);
        }
    }
}

proof fn lemma_without_item(items: Seq<Seq<char>>, item: Seq<char>, x: Seq<char>)
    ensures
        without_item(items, item).contains(x) <==> items.contains(x) && x != item,
        !items.contains(item) ==> without_item(items, item) == items,
    decreases items.len(),
{
    if items.len() > 0 {
        let init = items.drop_last();
        let rest = without_item(init, item);
        lemma_without_item(init, item, x);
        assert(items[items.len() - 1] == items.last());
        if items.contains(x) {
            let k = choose|k: int| 0 <= k < items.len() && items[k] == x;
            if k < init.len() {
                assert(init[k] == x);
            }
        }
        if init.contains(x) {
            let k = choose|k: int| 0 <= k < init.len() && init[k] == x;
            assert(items[k] == x);
        }
        if init.contains(item) {
            let k = choose|k: int| 0 <= k < init.len() && init[k] == item;
            assert(items[k] == item);
        }
        if items.last() != item {
            let all = rest.push(items.last());
            assert(all[rest.len() as int] == items.last());
            if rest.contains(x) {
                let k = choose|k: int| 0 <= k < rest.len() && rest[k] == x;
                assert(all[k] == x);
            }
            if all.contains(x) && x != items.last() {
                let k = choose|k: int| 0 <= k < all.len() && all[k] == x;
                assert(rest[k] == x);
            }
            assert(init.push(items.last()) == items);
        }
    }
}

proof fn lemma_without_item_stays_distinct(items: Seq<Seq<char>>, item: Seq<char>)
    requires
        distinct(items),
    ensures
        distinct(without_item(items, item)),
    decreases items.len(),
{
    if items.len() > 0 {
        let init = items.drop_last();
        assert forall|i: int, j: int| 0 <= i < j < init.len() implies (#[trigger] init[i]) != (
        #[trigger] init[j]) by {
            assert(init[i] == items[i] && init[j] == items[j]);
        }
        lemma_without_item_stays_distinct(init, item);
        let rest = without_item(init, item);
        if items.last() != item {
            lemma_without_item(init, item, items.last());
            assert(!init.contains(items.last())) by {
                if init.contains(items.last()) {
                    let k = choose|k: int| 0 <= k < init.len() && init[k] == items.last();
                    assert(items[k] == items[items.len() - 1]);
                }
            }
            let all = rest.push(items.last());
            assert forall|i: int, j: int| 0 <= i < j < all.len() implies (#[trigger] all[i]) != (
            #[trigger] all[j]) by {
                assert(all[i] == rest[i]);
                assert(rest.contains(rest[i]));
                if j < rest.len() {
                    assert(all[j] == rest[j]);
                }
            }
        }
    }
}

proof fn lemma_item_taken_back(items: Seq<Seq<char>>, item: Seq<char>)
    requires
        !items.contains(item),
    ensures
        without_item(with_item(items, item), item) == items,
{
    lemma_without_item(items, item, item);
    assert(items.push(item).drop_last() == items);
}

proof fn lemma_item_taken_once(items: Seq<Seq<char>>, item: Seq<char>)
    ensures
        without_item(without_item(items, item), item) == without_item(items, item),
{
    lemma_without_item(items, item, item);
    lemma_without_item(without_item(items, item), item, item);
}

/// What the index lists under `t` once `importer` is listed under `keys`.
proof fn lemma_with_edges(
    importers: Map<Seq<char>, Seq<Seq<char>>>,
    keys: Seq<Seq<char>>,
    importer: Seq<char>,
    t: Seq<char>,
)
    ensures
        ({
            let after = with_edges(importers, keys, importer);
            &&& after.contains_key(t) <==> importers.contains_key(t) || keys.contains(t)
            &&& keys.contains(t) ==> after[t] == with_item(importers_under(importers, t), importer)
            &&& !keys.contains(t) && importers.contains_key(t) ==> after[t] == importers[t]
        }),
    decreases keys.len(),
{
    if keys.len() > 0 {
        let init = keys.drop_last();
        lemma_with_edges(importers, init, importer, t);
        assert(keys[keys.len() - 1] == keys.last());
        if init.contains(t) {
            let k = choose|k: int| 0 <= k < init.len() && init[k] == t;
            assert(keys[k] == t);
        }
        if keys.contains(t) && t != keys.last() {
            let k = choose|k: int| 0 <= k < keys.len() && keys[k] == t;
            assert(init[k] == t);
        }
        lemma_with_item(importers_under(importers, t), importer, importer);
    }
}

/// What the index lists under `t` once `importer` is listed under none of `keys`.
proof fn lemma_without_edges(
    importers: Map<Seq<char>, Seq<Seq<char>>>,
    keys: Seq<Seq<char>>,
    importer: Seq<char>,
    t: Seq<char>,
)
    ensures
        ({
            let after = without_edges(importers, keys, importer);
            let rest = without_item(importers[t], importer);
            &&& keys.contains(t) ==> (after.contains_key(t) <==> importers.contains_key(t)
                && rest.len() > 0)
            &&& keys.contains(t) && after.contains_key(t) ==> after[t] == rest
            &&& !keys.contains(t) ==> (after.contains_key(t) <==> importers.contains_key(t))
            &&& !keys.contains(t) && importers.contains_key(t) ==> after[t] == importers[t]
        }),
    decreases keys.len(),
{
    if keys.len() > 0 {
        let init = keys.drop_last();
        lemma_without_edges(importers, init, importer, t);
        assert(keys[keys.len() - 1] == keys.last());
        if init.contains(t) {
            let k = choose|k: int| 0 <= k < init.len() && init[k] == t;
            assert(keys[k] == t);
        }
        if keys.contains(t) && t != keys.last() {
            let k = choose|k: int| 0 <= k < keys.len() && keys[k] == t;
            assert(init[k] == t);
        }
        lemma_item_taken_once(importers[t], importer);
    }
}

/// The keys of what a known file imports.
pub open spec fn targets_of(state: CacheView, key: Seq<char>) -> Seq<Seq<char>> {
    targets(state.layouts[key].file_path, state.layouts[key].imports)
}

/// Whatever the index lists is true: under each of its keys stands somebody, nobody
/// twice, and everybody who stands there is known and imports it.
pub open spec fn index_is_sound(state: CacheView) -> bool {
    forall|t: Seq<char>| #[trigger]
        state.importers.contains_key(t) ==> state.importers[t].len() > 0 && distinct(
            state.importers[t],
        ) && forall|p: Seq<char>| #[trigger]
            state.importers[t].contains(p) ==> state.layouts.contains_key(p) && targets_of(
                state,
                p,
            ).contains(t)
}

/// Whatever is true the index lists: every known file stands under each of the keys
/// of what it imports.
pub open spec fn index_is_complete(state: CacheView) -> bool {
    forall|p: Seq<char>, t: Seq<char>|
        state.layouts.contains_key(p) && #[trigger] targets_of(state, p).contains(t)
            ==> importers_under(state.importers, t).contains(p)
}

proof fn lemma_forgotten(state: CacheView, key: Seq<char>, t: Seq<char>)
    requires
        index_is_sound(state),
    ensures
        ({
            let after = forgotten(state, key);
            &&& importers_under(after, t) == without_item(importers_under(state.importers, t), key)
            &&& after.contains_key(t) <==> importers_under(after, t).len() > 0
        }),
{
    let listed = importers_under(state.importers, t);
    lemma_without_item(listed, key, key);
    if state.layouts.contains_key(key) {
        lemma_without_edges(state.importers, targets_of(state, key), key, t);
    }
    if state.importers.contains_key(t) && listed.contains(key) {
        assert(state.layouts.contains_key(key) && targets_of(state, key).contains(t));
    }
}

proof fn lemma_sound_without(state: CacheView, key: Seq<char>, t: Seq<char>, p: Seq<char>)
    requires
        index_is_sound(state),
    ensures
        distinct(importers_under(forgotten(state, key), t)),
        importers_under(forgotten(state, key), t).contains(p) <==> p != key && importers_under(
            state.importers,
            t,
        ).contains(p),
        importers_under(forgotten(state, key), t).contains(p) ==> state.layouts.contains_key(p)
            && targets_of(state, p).contains(t),
{
    let listed = importers_under(state.importers, t);
    lemma_forgotten(state, key, t);
    assert(distinct(listed));
    lemma_without_item_stays_distinct(listed, key);
    lemma_without_item(listed, key, p);
}

/// A cache that holds nothing has an exact index.
pub proof fn an_empty_cache_is_exact(config: CompiledConfigView)
    ensures
        ({
            let empty = CacheView { layouts: Map::empty(), importers: Map::empty(), config };
            index_is_sound(empty) && index_is_complete(empty)
        }),
{
}

/// A change keeps the index sound, and where it was complete, complete.
pub proof fn a_change_keeps_the_index_exact(state: CacheView, file: FileView)
    requires
        index_is_sound(state),
    ensures
        index_is_sound(changed(state, file)),
        index_is_complete(state) ==> index_is_complete(changed(state, file)),
{
    let key = key_of(file.file_path);
    let before = forgotten(state, key);
    let keys = targets(file.file_path, file.imports);
    let after = changed(state, file);
    assert forall|t: Seq<char>| #[trigger]
        after.importers.contains_key(t) implies after.importers[t].len() > 0 && distinct(after.importers[t]) && forall|p: Seq<char>| #[trigger]
        after.importers[t].contains(p) ==> after.layouts.contains_key(p) && targets_of(
            after,
            p,
        ).contains(t) by {
        lemma_with_edges(before, keys, key, t);
        lemma_forgotten(state, key, t);
        lemma_sound_without(state, key, t, key);
        lemma_with_item(importers_under(before, t), key, key);
        assert forall|p: Seq<char>| #[trigger]
            after.importers[t].contains(p) implies after.layouts.contains_key(p) && targets_of(
            after,
            p,
        ).contains(t) by {
            lemma_with_item(importers_under(before, t), key, p);
            lemma_sound_without(state, key, t, p);
        }
    }
    if index_is_complete(state) {
        assert forall|p: Seq<char>, t: Seq<char>|
            after.layouts.contains_key(p) && #[trigger] targets_of(after, p).contains(
                t,
            ) implies importers_under(after.importers, t).contains(p) by {
            lemma_with_edges(before, keys, key, t);
            lemma_sound_without(state, key, t, p);
            lemma_with_item(importers_under(before, t), key, p);
            if p != key {
                assert(targets_of(state, p).contains(t));
                lemma_forgotten(state, key, t);
            }
        }
    }
}

/// Removing a file keeps the index sound, and where it was complete, complete.
pub proof fn a_removal_keeps_the_index_exact(state: CacheView, file_path: Seq<char>)
    requires
        index_is_sound(state),
    ensures
        index_is_sound(removed(state, file_path)),
        index_is_complete(state) ==> index_is_complete(removed(state, file_path)),
{
    let key = key_of(file_path);
    let after = removed(state, file_path);
    assert forall|t: Seq<char>| #[trigger]
        after.importers.contains_key(t) implies after.importers[t].len() > 0 && distinct(
        after.importers[t],
    ) && forall|p: Seq<char>| #[trigger]
        after.importers[t].contains(p) ==> after.layouts.contains_key(p) && targets_of(
            after,
            p,
        ).contains(t) by {
        lemma_forgotten(state, key, t);
        lemma_sound_without(state, key, t, key);
        assert forall|p: Seq<char>| #[trigger]
            after.importers[t].contains(p) implies after.layouts.contains_key(p) && targets_of(
            after,
            p,
        ).contains(t) by {
            lemma_sound_without(state, key, t, p);
        }
    }
    if index_is_complete(state) {
        assert forall|p: Seq<char>, t: Seq<char>|
            after.layouts.contains_key(p) && #[trigger] targets_of(after, p).contains(
                t,
            ) implies importers_under(after.importers, t).contains(p) by {
            assert(targets_of(state, p).contains(t));
            lemma_sound_without(state, key, t, p);
        }
    }
}

/// After a change the file has the layout that it was given, and every other file the
/// one that it had.
pub proof fn a_change_is_of_one_layout(state: CacheView, file: FileView, other: Seq<char>)
    ensures
        changed(state, file).layouts.contains_key(key_of(file.file_path)),
        changed(state, file).layouts[key_of(file.file_path)] == file,
        other != key_of(file.file_path) ==> changed(state, file).layouts.contains_key(other)
            == state.layouts.contains_key(other) && changed(state, file).layouts[other]
            == state.layouts[other],
{
}

/// After its removal a file has no layout, and every other file the layout that it
/// had.
pub proof fn a_removal_is_of_one_layout(state: CacheView, file_path: Seq<char>, other: Seq<char>)
    ensures
        !removed(state, file_path).layouts.contains_key(key_of(file_path)),
        other != key_of(file_path) ==> removed(state, file_path).layouts.contains_key(other)
            == state.layouts.contains_key(other) && removed(state, file_path).layouts[other]
            == state.layouts[other],
{
}

/// Removing a file that was just taken in, and was not known before, leaves the cache
/// as it was.
pub proof fn a_removal_undoes_a_first_change(state: CacheView, file: FileView)
    requires
        index_is_sound(state),
        !state.layouts.contains_key(key_of(file.file_path)),
    ensures
        removed(changed(state, file), file.file_path) == state,
{
    let key = key_of(file.file_path);
    let keys = targets(file.file_path, file.imports);
    let middle = changed(state, file);
    let after = removed(middle, file.file_path);
    assert(targets_of(middle, key) == keys);
    assert forall|t: Seq<char>|
        #![trigger after.importers.contains_key(t)]
        #![trigger state.importers.contains_key(t)]
        after.importers.contains_key(t) == state.importers.contains_key(t) && (
        state.importers.contains_key(t) ==> after.importers[t] == state.importers[t]) by {
        let listed = importers_under(state.importers, t);
        if listed.contains(key) {
            assert(state.importers.contains_key(t));
            assert(state.layouts.contains_key(key));
        }
        lemma_with_edges(state.importers, keys, key, t);
        lemma_without_edges(middle.importers, keys, key, t);
        lemma_item_taken_back(listed, key);
    }
    assert(after.importers =~= state.importers);
    assert(after.layouts =~= state.layouts);
}

proof fn lemma_with_items(items: Seq<Seq<char>>, more: Seq<Seq<char>>, x: Seq<char>)
    ensures
        with_items(items, more).contains(x) <==> items.contains(x) || more.contains(x),
        distinct(items) ==> distinct(with_items(items, more)),
        items.len() > 0 ==> with_items(items, more).len() > 0 && with_items(items, more)[0]
            == items[0],
    decreases more.len(),
{
    if more.len() > 0 {
        let init = more.drop_last();
        lemma_with_items(items, init, x);
        lemma_with_item(with_items(items, init), more.last(), x);
        assert(more[more.len() - 1] == more.last());
        if init.contains(x) {
            let k = choose|k: int| 0 <= k < init.len() && init[k] == x;
            assert(more[k] == x);
        }
        if more.contains(x) && x != more.last() {
            let k = choose|k: int| 0 <= k < more.len() && more[k] == x;
            assert(init[k] == x);
        }
    }
}

proof fn lemma_dependents(
    importers: Map<Seq<char>, Seq<Seq<char>>>,
    key: Seq<char>,
    keys: Seq<Seq<char>>,
    x: Seq<char>,
)
    ensures
        dependents(importers, key, keys).contains(x) <==> x == key || exists|i: int|
            0 <= i < keys.len() && importers_under(importers, #[trigger] keys[i]).contains(x),
        distinct(dependents(importers, key, keys)),
        dependents(importers, key, keys).len() > 0,
        dependents(importers, key, keys)[0] == key,
    decreases keys.len(),
{
    if keys.len() == 0 {
        assert(seq![key][0] == key);
        if seq![key].contains(x) {
            let k = choose|k: int| 0 <= k < 1 && seq![key][k] == x;
        }
    } else {
        let init = keys.drop_last();
        lemma_dependents(importers, key, init, x);
        let before = dependents(importers, key, init);
        lemma_with_items(before, importers_under(importers, keys.last()), x);
        if before.contains(x) && x != key {
            let i = choose|i: int|
                0 <= i < init.len() && importers_under(importers, #[trigger] init[i]).contains(x);
            assert(importers_under(importers, keys[i]).contains(x));
        }
        if importers_under(importers, keys.last()).contains(x) {
            assert(importers_under(importers, keys[keys.len() - 1]).contains(x));
        }
        if exists|i: int|
            0 <= i < keys.len() && importers_under(importers, #[trigger] keys[i]).contains(x) {
            let i = choose|i: int|
                0 <= i < keys.len() && importers_under(importers, #[trigger] keys[i]).contains(x);
            if i < init.len() {
                assert(importers_under(importers, init[i]).contains(x));
            }
        }
    }
}

/// What is validated again after a change is the changed file, first, and exactly the
/// files that are listed as importing it, each once.
pub proof fn a_change_reaches_the_immediate_dependents(
    importers: Map<Seq<char>, Seq<Seq<char>>>,
    file_path: Seq<char>,
    x: Seq<char>,
)
    ensures
        affected(importers, file_path)[0] == key_of(file_path),
        distinct(affected(importers, file_path)),
        affected(importers, file_path).contains(x) <==> x == key_of(file_path) || exists|i: int|
            0 <= i < variant_keys(file_path).len() && importers_under(
                importers,
                #[trigger] variant_keys(file_path)[i],
            ).contains(x),
{
    lemma_dependents(importers, key_of(file_path), variant_keys(file_path), x);
}

proof fn lemma_revalidated(
    config: CompiledConfigView,
    layouts: Map<Seq<char>, FileView>,
    keys: Seq<Seq<char>>,
)
    requires
        forall|i: int| 0 <= i < keys.len() ==> layouts.contains_key(#[trigger] keys[i]),
    ensures
        revalidated(config, layouts, keys) == Seq::new(
            keys.len(),
            |i: int| (keys[i], validator::file_violations(config, layouts[keys[i]])),
        ),
    decreases keys.len(),
{
    if keys.len() > 0 {
        let init = keys.drop_last();
        assert forall|i: int| 0 <= i < init.len() implies layouts.contains_key(#[trigger] init[i]) by {
            assert(init[i] == keys[i]);
        }
        lemma_revalidated(config, layouts, init);
        assert(layouts.contains_key(keys[keys.len() - 1]));
    }
    assert(revalidated(config, layouts, keys) =~= Seq::new(
        keys.len(),
        |i: int| (keys[i], validator::file_violations(config, layouts[keys[i]])),
    ));
}

/// Where the index is sound, every file that a change reaches is known: the update
/// gives, in order, the violations of each of them, those of the changed file first.
pub proof fn an_update_is_of_every_affected_file(state: CacheView, file: FileView)
    requires
        index_is_sound(state),
    ensures
        ({
            let after = changed(state, file);
            let keys = affected(after.importers, file.file_path);
            let update = update_after(state, file);
            &&& update.files_revalidated == update.diagnostics.len()
            &&& update.diagnostics[0] == (
                key_of(file.file_path),
                validator::file_violations(state.config, file),
            )
            &&& update.diagnostics == Seq::new(
                keys.len(),
                |i: int|
                    (keys[i], validator::file_violations(state.config, after.layouts[keys[i]])),
            )
        }),
{
    let key = key_of(file.file_path);
    let after = changed(state, file);
    let variants = variant_keys(file.file_path);
    let keys = affected(after.importers, file.file_path);
    a_change_keeps_the_index_exact(state, file);
    assert forall|i: int| 0 <= i < keys.len() implies after.layouts.contains_key(
        #[trigger] keys[i],
    ) by {
        lemma_dependents(after.importers, key, variants, keys[i]);
        assert(keys.contains(keys[i]));
        if keys[i] != key {
            let j = choose|j: int|
                0 <= j < variants.len() && importers_under(
                    after.importers,
                    #[trigger] variants[j],
                ).contains(keys[i]);
            let t = variants[j];
            assert(after.importers.contains_key(t));
            assert(after.importers[t].contains(keys[i]));
        }
    }
    lemma_revalidated(after.config, after.layouts, keys);
    lemma_dependents(after.importers, key, variants, key);
}

/// Where the index is exact, a known file that imports the changed one, under any of
/// the keys that it may be listed under, is validated again.
pub proof fn known_importers_are_revalidated(state: CacheView, file: FileView, importer: Seq<char>)
    requires
        index_is_sound(state),
        index_is_complete(state),
        state.layouts.contains_key(importer),
        exists|i: int|
            0 <= i < variant_keys(file.file_path).len() && targets_of(
                state,
                importer,
            ).contains(#[trigger] variant_keys(file.file_path)[i]),
        importer != key_of(file.file_path),
    ensures
        update_after(state, file).diagnostics.contains(
            (importer, validator::file_violations(state.config, state.layouts[importer])),
        ),
{
    let key = key_of(file.file_path);
    let after = changed(state, file);
    let variants = variant_keys(file.file_path);
    let keys = affected(after.importers, file.file_path);
    a_change_keeps_the_index_exact(state, file);
    an_update_is_of_every_affected_file(state, file);
    let i = choose|i: int|
        0 <= i < variants.len() && targets_of(state, importer).contains(
            #[trigger] variants[i],
        );
    assert(targets_of(after, importer).contains(variants[i]));
    lemma_dependents(after.importers, key, variants, importer);
    let k = choose|k: int| 0 <= k < keys.len() && keys[k] == importer;
    assert(update_after(state, file).diagnostics[k] == (
        importer,
        validator::file_violations(state.config, state.layouts[importer]),
    ));
}

/// An import without an extension is indexed under its resolved path, and under that
/// with `.ts` and with `.tsx`: as it stands for a file whose path does not start at
/// the root, from the root for one whose path does.
pub proof fn imports_are_indexed_where_their_file_lies(
    file_path: Seq<char>,
    import_path: Seq<char>,
    base: Seq<char>,
)
    requires
        path::resolved_import(file_path, import_path) == Some(base),
        path::extension(base) is None,
        base.len() > 0,
        !base.contains('\\'),
    ensures
        !path::rooted(path::normalized(file_path)) ==> target_keys(file_path, import_path) == seq![
            base,
            base + ".ts"@,
            base + ".tsx"@,
        ],
        path::rooted(path::normalized(file_path)) && !path::rooted(import_path) ==> target_keys(
            file_path,
            import_path,
        ) == seq![
            seq!['/'] + base,
            seq!['/'] + base + ".ts"@,
            seq!['/'] + base + ".tsx"@,
        ],
{
    reveal_strlit(".ts");
    reveal_strlit(".tsx");
    let none = Seq::<char>::empty();
    lemma_key_of_resolved(file_path, import_path, base, none);
    lemma_key_of_resolved(file_path, import_path, base, ".ts"@);
    lemma_key_of_resolved(file_path, import_path, base, ".tsx"@);
    assert(base + none == base);
    assert(seq!['/'] + base + none == seq!['/'] + base);
    let module = if path::rooted(path::normalized(file_path)) {
        seq!['/'] + base
    } else {
        base
    };
    lemma_same_name_from_root(file_path, import_path, base);
    if !path::rooted(path::normalized(file_path)) || !path::rooted(import_path) {
        let found = modules(file_path, import_path);
        assert(found == seq![module]);
        assert(found.drop_last() == Seq::<Seq<char>>::empty());
        assert(files_of(found.drop_last()) == Seq::<Seq<char>>::empty());
        assert(files_of(found) =~= module_files(module));
        assert(target_keys(file_path, import_path) =~= seq![
            module,
            module + ".ts"@,
            module + ".tsx"@,
        ]);
    }
}

/// A resolved path that is not empty ends in a name, from the root or not the same.
proof fn lemma_same_name_from_root(
    file_path: Seq<char>,
    import_path: Seq<char>,
    base: Seq<char>,
)
    requires
        path::resolved_import(file_path, import_path) == Some(base),
        base.len() > 0,
    ensures
        path::file_name(base) is Some,
        path::file_name(seq!['/'] + base) == path::file_name(base),
        path::extension(seq!['/'] + base) == path::extension(base),
{
    path::resolved_import_is_canonical(file_path, import_path);
    let parts = path::segments(base);
    if parts.len() == 0 {
        assert(path::slash_joined(parts).len() == 0);
    }
    assert(parts[parts.len() - 1] == parts.last());
    path::a_root_adds_no_segment(parts);
}

proof fn lemma_key_of_resolved(
    file_path: Seq<char>,
    import_path: Seq<char>,
    base: Seq<char>,
    ending: Seq<char>,
)
    requires
        path::resolved_import(file_path, import_path) == Some(base),
        base.len() > 0,
        !base.contains('\\'),
        !ending.contains('\\'),
        !ending.contains('/'),
        ending.len() != 1,
    ensures
        key_of(base + ending) == base + ending,
        key_of(seq!['/'] + base + ending) == seq!['/'] + base + ending,
{
    path::resolved_import_is_canonical(file_path, import_path);
    let parts = path::segments(base);
    let last = parts.last() + ending;
    let all = parts.drop_last().push(last);
    assert(parts.len() > 0) by {
        if parts.len() == 0 {
            assert(path::slash_joined(parts).len() == 0);
        }
    }
    assert(all.drop_last() == parts.drop_last());
    assert(path::slash_joined(all) =~= base + ending);
    assert forall|i: int| 0 <= i < all.len() implies path::is_segment(#[trigger] all[i]) by {
        assert(path::is_segment(parts[i]));
        if i == all.len() - 1 {
            assert(parts[i] == parts.last());
            assert forall|k: int| 0 <= k < last.len() implies last[k] != '/' by {
                if k < parts.last().len() {
                    assert(parts.last().contains(last[k]));
                } else {
                    assert(ending[k - parts.last().len()] == last[k]);
                    assert(ending.contains(last[k]));
                }
            }
            if ending.len() == 0 {
                assert(last == parts.last());
            }
        }
    }
    let whole = base + ending;
    assert forall|k: int| 0 <= k < whole.len() implies whole[k] != '\\' by {
        if k < base.len() {
            assert(base.contains(whole[k]));
        } else {
            assert(ending[k - base.len()] == whole[k]);
            assert(ending.contains(whole[k]));
        }
    }
    path::a_path_of_segments_is_plain(all);
    assert(seq!['/'] + base + ending == seq!['/'] + whole);
}

proof fn lemma_targets_of_an_import(
    file_path: Seq<char>,
    imports: Seq<ImportView>,
    i: int,
    t: Seq<char>,
)
    requires
        0 <= i < imports.len(),
        target_keys(file_path, imports[i].path).contains(t),
    ensures
        targets(file_path, imports).contains(t),
    decreases imports.len(),
{
    let init = imports.drop_last();
    let before = targets(file_path, init);
    let all = targets(file_path, imports);
    if i < init.len() {
        assert(init[i] == imports[i]);
        lemma_targets_of_an_import(file_path, init, i, t);
        let k = choose|k: int| 0 <= k < before.len() && before[k] == t;
        assert(all[k] == t);
    } else {
        let last = target_keys(file_path, imports.last().path);
        let k = choose|k: int| 0 <= k < last.len() && last[k] == t;
        assert(all[before.len() + k] == t);
    }
}

proof fn lemma_named_files_are_targets(
    file_path: Seq<char>,
    import_path: Seq<char>,
    target: Seq<char>,
)
    requires
        names_file(file_path, import_path, target),
    ensures
        target_keys(file_path, import_path).contains(key_of(target)),
{
    let files = files_of(modules(file_path, import_path));
    let i = choose|i: int|
        0 <= i < files.len() && key_of(#[trigger] files[i]) == key_of(target);
    assert(target_keys(file_path, import_path)[i] == key_of(target));
}

/// One thing that can happen to a cache: a file gets a layout, or goes.
pub enum CacheStep {
    Change(FileView),
    Removal(Seq<char>),
}

/// A new cache after some steps.
pub open spec fn after_steps(config: CompiledConfigView, steps: Seq<CacheStep>) -> CacheView
    decreases steps.len(),
{
    if steps.len() == 0 {
        CacheView { layouts: Map::empty(), importers: Map::empty(), config }
    } else {
        let before = after_steps(config, steps.drop_last());
        match steps.last() {
            CacheStep::Change(file) => changed(before, file),
            CacheStep::Removal(file_path) => removed(before, file_path),
        }
    }
}

/// Whether changes and removals can lead a new cache to `state`.
pub open spec fn reached(state: CacheView) -> bool {
    exists|steps: Seq<CacheStep>| #[trigger] after_steps(state.config, steps) == state
}

/// A new cache is reached, without any step.
pub proof fn a_new_cache_is_reached(config: CompiledConfigView)
    ensures
        reached(CacheView { layouts: Map::empty(), importers: Map::empty(), config }),
{
    let empty = CacheView { layouts: Map::empty(), importers: Map::empty(), config };
    assert(after_steps(empty.config, Seq::empty()) == empty);
}

/// What a change makes of a reached cache is reached.
pub proof fn a_changed_cache_is_reached(state: CacheView, file: FileView)
    requires
        reached(state),
    ensures
        reached(changed(state, file)),
{
    let steps = choose|steps: Seq<CacheStep>| #[trigger]
        after_steps(state.config, steps) == state;
    let more = steps.push(CacheStep::Change(file));
    assert(more.drop_last() == steps);
    assert(after_steps(changed(state, file).config, more) == changed(state, file));
}

/// What a removal makes of a reached cache is reached.
pub proof fn a_reduced_cache_is_reached(state: CacheView, file_path: Seq<char>)
    requires
        reached(state),
    ensures
        reached(removed(state, file_path)),
{
    let steps = choose|steps: Seq<CacheStep>| #[trigger]
        after_steps(state.config, steps) == state;
    let more = steps.push(CacheStep::Removal(file_path));
    assert(more.drop_last() == steps);
    assert(after_steps(removed(state, file_path).config, more) == removed(state, file_path));
}

/// Whatever changes and removals lead to has an exact index.
pub proof fn a_reached_cache_is_exact(state: CacheView)
    requires
        reached(state),
    ensures
        index_is_sound(state),
        index_is_complete(state),
{
    let steps = choose|steps: Seq<CacheStep>| #[trigger]
        after_steps(state.config, steps) == state;
    lemma_steps_keep_the_index_exact(state.config, steps);
}

proof fn lemma_steps_keep_the_index_exact(config: CompiledConfigView, steps: Seq<CacheStep>)
    ensures
        index_is_sound(after_steps(config, steps)),
        index_is_complete(after_steps(config, steps)),
    decreases steps.len(),
{
    if steps.len() == 0 {
        an_empty_cache_is_exact(config);
    } else {
        let before = after_steps(config, steps.drop_last());
        lemma_steps_keep_the_index_exact(config, steps.drop_last());
        match steps.last() {
            CacheStep::Change(file) => a_change_keeps_the_index_exact(before, file),
            CacheStep::Removal(file_path) => a_removal_keeps_the_index_exact(before, file_path),
        }
    }
}

/// In whatever state changes and removals have led to, a change of a file reaches every
/// other known file with an import that names it: its violations are given anew.
pub proof fn a_change_reaches_whoever_names_the_file(
    state: CacheView,
    file: FileView,
    importer: Seq<char>,
    i: int,
)
    requires
        reached(state),
        state.layouts.contains_key(importer),
        importer != key_of(file.file_path),
        0 <= i < state.layouts[importer].imports.len(),
        names_file(
            state.layouts[importer].file_path,
            state.layouts[importer].imports[i].path,
            file.file_path,
        ),
    ensures
        update_after(state, file).diagnostics.contains(
            (importer, validator::file_violations(state.config, state.layouts[importer])),
        ),
{
    let known = state.layouts[importer];
    a_reached_cache_is_exact(state);
    lemma_named_files_are_targets(known.file_path, known.imports[i].path, file.file_path);
    lemma_targets_of_an_import(known.file_path, known.imports, i, key_of(file.file_path));
    assert(variant_keys(file.file_path)[0] == key_of(file.file_path));
    assert(targets_of(state, importer).contains(variant_keys(file.file_path)[0]));
    known_importers_are_revalidated(state, file, importer);
}

/// In whatever state changes and removals have led to, a change of a file reaches that
/// file and exactly the known files that import it under one of its keys.
pub proof fn a_change_reaches_known_importers_alone(
    state: CacheView,
    file: FileView,
    x: Seq<char>,
)
    requires
        reached(state),
    ensures
        ({
            let after = changed(state, file);
            affected(after.importers, file.file_path).contains(x) <==> x == key_of(file.file_path)
                || (after.layouts.contains_key(x) && exists|i: int|
                0 <= i < variant_keys(file.file_path).len() && targets_of(after, x).contains(
                    #[trigger] variant_keys(file.file_path)[i],
                ))
        }),
{
    let after = changed(state, file);
    let variants = variant_keys(file.file_path);
    a_reached_cache_is_exact(state);
    a_change_keeps_the_index_exact(state, file);
    a_change_reaches_the_immediate_dependents(after.importers, file.file_path, x);
    if exists|i: int|
        0 <= i < variants.len() && importers_under(after.importers, #[trigger] variants[i]).contains(
            x,
        ) {
        let i = choose|i: int|
            0 <= i < variants.len() && importers_under(
                after.importers,
                #[trigger] variants[i],
            ).contains(x);
        assert(after.importers.contains_key(variants[i]));
        assert(after.importers[variants[i]].contains(x));
        assert(targets_of(after, x).contains(variants[i]));
    }
    if after.layouts.contains_key(x) && exists|i: int|
        0 <= i < variants.len() && targets_of(after, x).contains(#[trigger] variants[i]) {
        let i = choose|i: int|
            0 <= i < variants.len() && targets_of(after, x).contains(#[trigger] variants[i]);
        assert(importers_under(after.importers, variants[i]).contains(x));
    }
}

/// In whatever state changes and removals have led to, an update gives, for each file
/// that it reaches and for each once, exactly the violations of the layout that the
/// cache then holds; the changed file is among them.
pub proof fn an_update_speaks_of_the_cache(state: CacheView, file: FileView)
    requires
        reached(state),
    ensures
        ({
            let after = changed(state, file);
            let update = update_after(state, file);
            &&& update.files_reparsed == 1
            &&& update.files_revalidated == update.diagnostics.len()
            &&& update.diagnostics[0].0 == key_of(file.file_path)
            &&& forall|i: int, j: int|
                0 <= i < j < update.diagnostics.len() ==> (#[trigger] update.diagnostics[i]).0 != (
                #[trigger] update.diagnostics[j]).0
            &&& forall|i: int|
                0 <= i < update.diagnostics.len() ==> after.layouts.contains_key(
                    (#[trigger] update.diagnostics[i]).0,
                ) && update.diagnostics[i].1 == validator::file_violations(
                    after.config,
                    after.layouts[update.diagnostics[i].0],
                )
        }),
{
    let after = changed(state, file);
    let update = update_after(state, file);
    let keys = affected(after.importers, file.file_path);
    a_reached_cache_is_exact(state);
    an_update_is_of_every_affected_file(state, file);
    a_change_reaches_the_immediate_dependents(
        after.importers,
        file.file_path,
        key_of(file.file_path),
    );
    assert forall|i: int, j: int| 0 <= i < j < update.diagnostics.len() implies (
    #[trigger] update.diagnostics[i]).0 != (#[trigger] update.diagnostics[j]).0 by {
        assert(keys[i] != keys[j]);
    }
    assert forall|i: int| 0 <= i < update.diagnostics.len() implies after.layouts.contains_key(
        (#[trigger] update.diagnostics[i]).0,
    ) by {
        assert(keys.contains(keys[i]));
        a_change_reaches_known_importers_alone(state, file, keys[i]);
    }
}

proof fn lemma_layouts_are_finite(config: CompiledConfigView, steps: Seq<CacheStep>)
    ensures
        after_steps(config, steps).layouts.dom().finite(),
    decreases steps.len(),
{
    if steps.len() > 0 {
        lemma_layouts_are_finite(config, steps.drop_last());
    }
}

/// In whatever state changes and removals have led to, a change adds one layout where
/// the file was not known, and none where it was; a removal takes one where it was.
pub proof fn steps_count_one_layout(state: CacheView, file: FileView, file_path: Seq<char>)
    requires
        reached(state),
    ensures
        changed(state, file).layouts.len() == state.layouts.len() + (
        if state.layouts.contains_key(key_of(file.file_path)) {
            0int
        } else {
            1int
        }),
        removed(state, file_path).layouts.len() == state.layouts.len() - (
        if state.layouts.contains_key(key_of(file_path)) {
            1int
        } else {
            0int
        }),
{
    let steps = choose|steps: Seq<CacheStep>| #[trigger]
        after_steps(state.config, steps) == state;
    lemma_layouts_are_finite(state.config, steps);
    let dom = state.layouts.dom();
    assert(changed(state, file).layouts.dom() =~= dom.insert(key_of(file.file_path)));
    assert(removed(state, file_path).layouts.dom() =~= dom.remove(key_of(file_path)));
}

/// One of the endings of the files that are read.
pub open spec fn is_ending(ending: Seq<char>) -> bool {
    ending == ".ts"@ || ending == ".tsx"@
}

/// The file at `file_path` holds an import that resolves to the module at `module`, which
/// lies where the file lies: under the root for a file whose path starts there, and,
/// where the import starts at the project root, for such a file in either place.
pub open spec fn leads_to(file_path: Seq<char>, import_path: Seq<char>, module: Seq<char>) -> bool {
    match path::resolved_import(file_path, import_path) {
        Some(base) => {
            ||| module == base && (!path::rooted(path::normalized(file_path)) || path::rooted(
                import_path,
            ))
            ||| module == seq!['/'] + base && path::rooted(path::normalized(file_path))
        },
        None => false,
    }
}

proof fn lemma_endings(ending: Seq<char>)
    requires
        is_ending(ending),
    ensures
        ending.len() >= 2,
        ending[0] == '.',
        !ending.contains('/'),
        !ending.contains('\\'),
        !text::ends_with(".ts"@, ".tsx"@),
{
    reveal_strlit(".ts");
    reveal_strlit(".tsx");
    if ending == ".ts"@ {
        assert(ending =~= seq!['.', 't', 's']);
    } else {
        assert(ending =~= seq!['.', 't', 's', 'x']);
    }
    assert forall|i: int| 0 <= i < ending.len() implies ending[i] != '/' && ending[i] != '\\' by {}
}

/// A file with one of the endings is looked up under its own key and under that of its
/// name without the ending, whether or not that name holds a dot; a file with none of
/// them under its own key and under that of its name with each.
pub proof fn a_file_is_looked_up_with_and_without_its_ending(p: Seq<char>, ending: Seq<char>)
    requires
        is_ending(ending),
    ensures
        variant_keys(p).contains(key_of(p)),
        !text::ends_with(path::normalized(p), ending) ==> variant_keys(p + ending).contains(
            key_of(p),
        ),
        !text::ends_with(path::normalized(p), ".ts"@) && !text::ends_with(
            path::normalized(p),
            ".tsx"@,
        ) ==> variant_keys(p).contains(key_of(p + ending)),
{
    lemma_endings(ending);
    path::an_ending_stays_in_normalizing(p, ending);
    let stem = path::normalized(p);
    let whole = stem + ending;
    reveal_strlit(".ts");
    reveal_strlit(".tsx");
    assert(variant_keys(p)[0] == key_of(p));
    assert(whole.skip(whole.len() - ending.len()) =~= ending);
    if ending == ".tsx"@ && text::ends_with(whole, ".ts"@) {
        assert(whole.last() == 'x');
        assert(whole.skip(whole.len() - 3).last() == whole.last());
    }
    if !text::ends_with(stem, ending) {
        assert(text::repeated(ending, 1) =~= ending) by {
            reveal_with_fuel(text::repeated, 2);
        }
        text::endings_are_dropped_however_many(stem, ending, 1);
        assert(variant_keys(p + ending)[1] == key_of(p));
    }
    if !text::ends_with(stem, ".ts"@) && !text::ends_with(stem, ".tsx"@) {
        assert(variant_keys(p)[1] == path::identity(stem + ".ts"@));
        assert(variant_keys(p)[2] == path::identity(stem + ".tsx"@));
    }
}

proof fn lemma_module_is_a_target(
    file_path: Seq<char>,
    import_path: Seq<char>,
    module: Seq<char>,
)
    requires
        leads_to(file_path, import_path, module),
    ensures
        target_keys(file_path, import_path).contains(key_of(module)),
{
    reveal_with_fuel(files_of, 3);
    let places = modules(file_path, import_path);
    let files = files_of(places);
    let n = places.len();
    assert(n == 1 || n == 2);
    assert(places.drop_last().len() == n - 1);
    if n == 2 {
        assert(places.drop_last().drop_last().len() == 0);
    }
    assert(places.last() == places[n - 1]);
    if module == places[n - 1] {
        let before = files_of(places.drop_last());
        assert(module_files(module)[0] == module);
        assert(files[before.len() as int] == module);
        assert(target_keys(file_path, import_path)[before.len() as int] == key_of(module));
    } else {
        assert(n == 2 && module == places[0]);
        assert(places.drop_last().last() == module);
        assert(module_files(module)[0] == module);
        assert(files_of(places.drop_last()) =~= module_files(module));
        assert(files[0] == module);
        assert(target_keys(file_path, import_path)[0] == key_of(module));
    }
}

/// In whatever state changes and removals have led to, a change reaches every other known
/// file with an import that resolves to the changed file's name without its ending,
/// whether or not the last part of that name holds a dot.
pub proof fn a_change_reaches_whoever_imports_its_name(
    state: CacheView,
    file: FileView,
    importer: Seq<char>,
    i: int,
    module: Seq<char>,
    ending: Seq<char>,
)
    requires
        reached(state),
        state.layouts.contains_key(importer),
        importer != key_of(file.file_path),
        0 <= i < state.layouts[importer].imports.len(),
        leads_to(
            state.layouts[importer].file_path,
            state.layouts[importer].imports[i].path,
            module,
        ),
        is_ending(ending),
        path::normalized(file.file_path) == path::normalized(module + ending),
        !text::ends_with(path::normalized(module), ending),
    ensures
        update_after(state, file).diagnostics.contains(
            (importer, validator::file_violations(state.config, state.layouts[importer])),
        ),
{
    a_file_is_looked_up_with_and_without_its_ending(module, ending);
    assert(variant_keys(file.file_path) == variant_keys(module + ending));
    lemma_a_change_reaches_under(state, file, importer, i, module);
}

/// In whatever state changes and removals have led to, a change reaches every other known
/// file with an import that resolves to the changed file itself; and, where that has
/// neither ending, with an import that resolves to its name with one of them.
pub proof fn a_change_reaches_whoever_imports_the_file(
    state: CacheView,
    file: FileView,
    importer: Seq<char>,
    i: int,
    module: Seq<char>,
    ending: Seq<char>,
)
    requires
        reached(state),
        state.layouts.contains_key(importer),
        importer != key_of(file.file_path),
        0 <= i < state.layouts[importer].imports.len(),
        leads_to(
            state.layouts[importer].file_path,
            state.layouts[importer].imports[i].path,
            module,
        ),
        is_ending(ending),
        key_of(module) == key_of(file.file_path) || (!text::ends_with(
            path::normalized(file.file_path),
            ".ts"@,
        ) && !text::ends_with(path::normalized(file.file_path), ".tsx"@) && key_of(module)
            == key_of(file.file_path + ending)),
    ensures
        update_after(state, file).diagnostics.contains(
            (importer, validator::file_violations(state.config, state.layouts[importer])),
        ),
{
    a_file_is_looked_up_with_and_without_its_ending(file.file_path, ending);
    lemma_a_change_reaches_under(state, file, importer, i, module);
}

proof fn lemma_a_change_reaches_under(
    state: CacheView,
    file: FileView,
    importer: Seq<char>,
    i: int,
    module: Seq<char>,
)
    requires
        reached(state),
        state.layouts.contains_key(importer),
        importer != key_of(file.file_path),
        0 <= i < state.layouts[importer].imports.len(),
        leads_to(
            state.layouts[importer].file_path,
            state.layouts[importer].imports[i].path,
            module,
        ),
        variant_keys(file.file_path).contains(key_of(module)),
    ensures
        update_after(state, file).diagnostics.contains(
            (importer, validator::file_violations(state.config, state.layouts[importer])),
        ),
{
    let known = state.layouts[importer];
    let variants = variant_keys(file.file_path);
    a_reached_cache_is_exact(state);
    lemma_module_is_a_target(known.file_path, known.imports[i].path, module);
    lemma_targets_of_an_import(known.file_path, known.imports, i, key_of(module));
    let k = choose|k: int| 0 <= k < variants.len() && variants[k] == key_of(module);
    assert(targets_of(state, importer).contains(variants[k]));
    known_importers_are_revalidated(state, file, importer);
}

/// `key` may stand for the module at `module`: it is its key, or that of its name with
/// one of the endings.
pub open spec fn stands_for(key: Seq<char>, module: Seq<char>) -> bool {
    key == key_of(module) || key == key_of(module + ".ts"@) || key == key_of(module + ".tsx"@)
}

/// `key` may stand for the file at `file_path`: it is its key, that of its name without
/// one of the endings, or that of its name with one.
pub open spec fn is_looked_up(key: Seq<char>, file_path: Seq<char>) -> bool {
    ||| key == key_of(file_path)
    ||| key == key_of(file_path + ".ts"@)
    ||| key == key_of(file_path + ".tsx"@)
    ||| exists|stem: Seq<char>, ending: Seq<char>, n: nat|
        is_ending(ending) && n > 0 && path::normalized(file_path) == stem
            + #[trigger] text::repeated(ending, n) && key == #[trigger] path::identity(stem)
}

/// What an update speaks of is the changed file, or another known file with an import
/// that leads to a module of that name, with or without an ending; and what it says of it
/// are its violations.
pub proof fn an_update_speaks_of_importers_alone(state: CacheView, file: FileView, j: int)
    requires
        reached(state),
        0 <= j < update_after(state, file).diagnostics.len(),
    ensures
        ({
            let (key, said) = update_after(state, file).diagnostics[j];
            ||| key == key_of(file.file_path) && said == validator::file_violations(
                state.config,
                file,
            )
            ||| key != key_of(file.file_path) && state.layouts.contains_key(key) && said
                == validator::file_violations(state.config, state.layouts[key]) && exists|
                i: int,
                module: Seq<char>,
                k: Seq<char>,
            |
                0 <= i < state.layouts[key].imports.len() && #[trigger] leads_to(
                    state.layouts[key].file_path,
                    state.layouts[key].imports[i].path,
                    module,
                ) && #[trigger] stands_for(k, module) && is_looked_up(k, file.file_path)
        }),
{
    let after = changed(state, file);
    let keys = affected(after.importers, file.file_path);
    let variants = variant_keys(file.file_path);
    let (key, said) = update_after(state, file).diagnostics[j];
    a_reached_cache_is_exact(state);
    a_change_keeps_the_index_exact(state, file);
    an_update_is_of_every_affected_file(state, file);
    assert(keys[j] == key);
    assert(keys.contains(key));
    a_change_reaches_known_importers_alone(state, file, key);
    if key != key_of(file.file_path) {
        let v = choose|v: int|
            0 <= v < variants.len() && targets_of(after, key).contains(#[trigger] variants[v]);
        let known = state.layouts[key];
        assert(after.layouts[key] == known);
        lemma_a_target_is_of_an_import(known.file_path, known.imports, variants[v]);
        let (i, module) = choose|i: int, module: Seq<char>|
            0 <= i < known.imports.len() && #[trigger] leads_to(
                known.file_path,
                known.imports[i].path,
                module,
            ) && stands_for(variants[v], module);
        lemma_variants_are_looked_up(file.file_path, v);
        assert(leads_to(known.file_path, known.imports[i].path, module) && stands_for(
            variants[v],
            module,
        ) && is_looked_up(variants[v], file.file_path));
    }
}

proof fn lemma_variants_are_looked_up(file_path: Seq<char>, v: int)
    requires
        0 <= v < variant_keys(file_path).len(),
    ensures
        is_looked_up(variant_keys(file_path)[v], file_path),
{
    let whole = path::normalized(file_path);
    lemma_endings(".ts"@);
    lemma_endings(".tsx"@);
    path::an_ending_stays_in_normalizing(file_path, ".ts"@);
    path::an_ending_stays_in_normalizing(file_path, ".tsx"@);
    if v > 0 && text::ends_with(whole, ".ts"@) {
        lemma_dropped_endings(whole, ".ts"@);
        let n = choose|n: nat|
            n > 0 && whole == text::without_suffixes(whole, ".ts"@) + #[trigger] text::repeated(
                ".ts"@,
                n,
            );
        assert(is_ending(".ts"@) && whole == text::without_suffixes(whole, ".ts"@)
            + text::repeated(".ts"@, n));
    } else if v > 0 && text::ends_with(whole, ".tsx"@) {
        lemma_dropped_endings(whole, ".tsx"@);
        let n = choose|n: nat|
            n > 0 && whole == text::without_suffixes(whole, ".tsx"@) + #[trigger] text::repeated(
                ".tsx"@,
                n,
            );
        assert(is_ending(".tsx"@) && whole == text::without_suffixes(whole, ".tsx"@)
            + text::repeated(".tsx"@, n));
    }
}

proof fn lemma_dropped_endings(s: Seq<char>, ending: Seq<char>)
    requires
        ending.len() > 0,
        text::ends_with(s, ending),
    ensures
        exists|n: nat|
            n > 0 && s == text::without_suffixes(s, ending) + #[trigger] text::repeated(ending, n),
    decreases s.len(),
{
    let shorter = s.take(s.len() - ending.len());
    let stem = text::without_suffixes(shorter, ending);
    assert(s =~= shorter + ending);
    assert(text::without_suffixes(s, ending) == stem);
    if text::ends_with(shorter, ending) {
        lemma_dropped_endings(shorter, ending);
        let n = choose|n: nat| n > 0 && shorter == stem + #[trigger] text::repeated(ending, n);
        assert(text::repeated(ending, n + 1) == text::repeated(ending, n) + ending);
        assert(s =~= stem + text::repeated(ending, n + 1));
    } else {
        reveal_with_fuel(text::repeated, 2);
        assert(s =~= stem + text::repeated(ending, 1));
    }
}

proof fn lemma_a_target_is_of_an_import(
    file_path: Seq<char>,
    imports: Seq<ImportView>,
    t: Seq<char>,
)
    requires
        targets(file_path, imports).contains(t),
    ensures
        exists|i: int, module: Seq<char>|
            0 <= i < imports.len() && #[trigger] leads_to(file_path, imports[i].path, module)
                && stands_for(t, module),
    decreases imports.len(),
{
    let all = targets(file_path, imports);
    let k = choose|k: int| 0 <= k < all.len() && all[k] == t;
    let init = imports.drop_last();
    let before = targets(file_path, init);
    if k < before.len() {
        assert(before[k] == t);
        lemma_a_target_is_of_an_import(file_path, init, t);
        let (i, module) = choose|i: int, module: Seq<char>|
            0 <= i < init.len() && #[trigger] leads_to(file_path, init[i].path, module)
                && stands_for(t, module);
        assert(leads_to(file_path, imports[i].path, module));
    } else {
        let import_path = imports.last().path;
        let files = files_of(modules(file_path, import_path));
        assert(t == key_of(files[k - before.len()]));
        lemma_file_of_a_module(file_path, import_path, k - before.len());
        let module = choose|module: Seq<char>| #[trigger]
            leads_to(file_path, import_path, module) && stands_for(t, module);
        assert(leads_to(file_path, imports[imports.len() - 1].path, module));
    }
}

proof fn lemma_file_of_a_module(file_path: Seq<char>, import_path: Seq<char>, k: int)
    requires
        0 <= k < files_of(modules(file_path, import_path)).len(),
    ensures
        exists|module: Seq<char>| #[trigger]
            leads_to(file_path, import_path, module) && stands_for(
                key_of(files_of(modules(file_path, import_path))[k]),
                module,
            ),
{
    reveal_with_fuel(files_of, 3);
    let places = modules(file_path, import_path);
    let files = files_of(places);
    let before = files_of(places.drop_last());
    if k < before.len() {
        let first = places.drop_last();
        assert(first.len() == 1);
        assert(before =~= module_files(first.last()));
        assert(first.last() == places[0]);
        assert(files[k] == before[k]);
        assert(leads_to(file_path, import_path, places[0]));
    } else {
        assert(files[k] == module_files(places.last())[k - before.len()]);
        assert(leads_to(file_path, import_path, places.last()));
    }
}

/// An import that names an extension is indexed under that name alone: as it stands for a
/// file whose path does not start at the root, from the root for one whose path does.
pub proof fn imports_with_an_extension_are_indexed_as_they_are(
    file_path: Seq<char>,
    import_path: Seq<char>,
    base: Seq<char>,
)
    requires
        path::resolved_import(file_path, import_path) == Some(base),
        path::extension(base) is Some,
        path::extension(seq!['/'] + base) is Some,
    ensures
        !path::rooted(path::normalized(file_path)) ==> target_keys(file_path, import_path) == seq![
            key_of(base),
        ],
        path::rooted(path::normalized(file_path)) && !path::rooted(import_path) ==> target_keys(
            file_path,
            import_path,
        ) == seq![key_of(seq!['/'] + base)],
        path::rooted(path::normalized(file_path)) && path::rooted(import_path) ==> target_keys(
            file_path,
            import_path,
        ) == seq![key_of(base), key_of(seq!['/'] + base)],
{
    reveal_with_fuel(files_of, 3);
    let places = modules(file_path, import_path);
    let files = files_of(places);
    if places.len() == 2 {
        assert(places.drop_last() =~= seq![base]);
        assert(seq![base].drop_last().len() == 0);
        assert(files =~= seq![base, seq!['/'] + base]);
    } else {
        assert(places.drop_last().len() == 0);
        assert(files =~= seq![places[0]]);
    }
    assert(target_keys(file_path, import_path) =~= keys_of(files));
}

}

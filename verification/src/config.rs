//! The declared architecture: layers, rules, and their compiled form.

use globset::GlobSet;
use vstd::prelude::*;
use vstd::string::StringExecFns;

use crate::error::{quoted, AddError, AddResult, ErrorView};
use crate::globs;
use crate::globs::{build_glob_set, describe_glob_error, glob_set_matches};
use crate::text;
use crate::text::{clone_optional, clone_strings, same_text};

verus! {

/// Root configuration, as declared in `architecture.yaml`.
#[derive(Debug, Clone)]
pub struct ArchitectureConfig {
    pub layers: LayerMap,
    pub rules: Vec<ArchitecturalRule>,
}

/// Declares how files are assigned to a named architectural layer.
#[derive(Debug)]
pub struct LayerDefinition {
    /// Glob patterns matched against normalized file paths (forward slashes).
    pub path_patterns: Vec<String>,
    /// When set, files in this layer may only import modules that resolve to these layers.
    pub allowed_dependencies: Option<Vec<String>>,
    /// When true, imports must route through domain port/interface modules.
    pub enforce_interface_boundary: bool,
    /// Layer key that owns `port_path_patterns` (defaults to `domain` when present).
    pub interface_port_layer: Option<String>,
    /// Glob patterns for permitted port/interface modules (typically on the domain layer).
    pub port_path_patterns: Vec<String>,
}

/// A declarative constraint evaluated by the rule engine.
#[derive(Debug, Clone)]
pub struct ArchitecturalRule {
    pub name: String,
    pub description: Option<String>,
    /// Layer keys defined in `layers` whose files are subject to this rule.
    pub source_layers: Vec<String>,
    /// Import path glob patterns that must not appear in `source_layers`.
    pub forbidden_import_patterns: Vec<String>,
    pub message: String,
    pub remediation: Vec<String>,
}

/// The layers by name. No name occurs twice, and the layers keep the order in which
/// their names first came.
#[derive(Debug)]
pub struct LayerMap {
    entries: Vec<(String, LayerDefinition)>,
}

#[verifier::ext_equal]
pub struct LayerView {
    pub path_patterns: Seq<Seq<char>>,
    pub allowed_dependencies: Option<Seq<Seq<char>>>,
    pub enforce_interface_boundary: bool,
    pub interface_port_layer: Option<Seq<char>>,
    pub port_path_patterns: Seq<Seq<char>>,
}

#[verifier::ext_equal]
pub struct RuleView {
    pub name: Seq<char>,
    pub description: Option<Seq<char>>,
    pub source_layers: Seq<Seq<char>>,
    pub forbidden_import_patterns: Seq<Seq<char>>,
    pub message: Seq<char>,
    pub remediation: Seq<Seq<char>>,
}

#[verifier::ext_equal]
pub struct ConfigView {
    pub layers: Seq<(Seq<char>, LayerView)>,
    pub rules: Seq<RuleView>,
}

impl DeepView for LayerDefinition {
    type V = LayerView;

    open spec fn deep_view(&self) -> LayerView {
        LayerView {
            path_patterns: self.path_patterns.deep_view(),
            allowed_dependencies: self.allowed_dependencies.deep_view(),
            enforce_interface_boundary: self.enforce_interface_boundary,
            interface_port_layer: self.interface_port_layer.deep_view(),
            port_path_patterns: self.port_path_patterns.deep_view(),
        }
    }
}

impl DeepView for ArchitecturalRule {
    type V = RuleView;

    open spec fn deep_view(&self) -> RuleView {
        RuleView {
            name: self.name@,
            description: self.description.deep_view(),
            source_layers: self.source_layers.deep_view(),
            forbidden_import_patterns: self.forbidden_import_patterns.deep_view(),
            message: self.message@,
            remediation: self.remediation.deep_view(),
        }
    }
}

impl View for LayerMap {
    type V = Seq<(Seq<char>, LayerView)>;

    closed spec fn view(&self) -> Seq<(Seq<char>, LayerView)> {
        self.entries.deep_view()
    }
}

impl View for ArchitectureConfig {
    type V = ConfigView;

    open spec fn view(&self) -> ConfigView {
        ConfigView { layers: self.layers@, rules: self.rules.deep_view() }
    }
}

/// Where the layer called `name` stands.
pub open spec fn layer_position(layers: Seq<(Seq<char>, LayerView)>, name: Seq<char>) -> Option<
    int,
>
    decreases layers.len(),
{
    if layers.len() == 0 {
        None
    } else {
        match layer_position(layers.drop_last(), name) {
            Some(i) => Some(i),
            None => if layers.last().0 == name {
                Some(layers.len() - 1)
            } else {
                None
            },
        }
    }
}

pub open spec fn distinct_names(layers: Seq<(Seq<char>, LayerView)>) -> bool {
    forall|i: int, j: int| 0 <= i < j < layers.len() ==> layers[i].0 != layers[j].0
}

/// `layers` with `layer` under `name`, in place of the one that had the name.
pub open spec fn with_layer(
    layers: Seq<(Seq<char>, LayerView)>,
    name: Seq<char>,
    layer: LayerView,
) -> Seq<(Seq<char>, LayerView)> {
    match layer_position(layers, name) {
        Some(i) => layers.update(i, (name, layer)),
        None => layers.push((name, layer)),
    }
}

/// The layers of `entries`; where a name occurs twice, the later layer has it.
pub open spec fn layers_of(entries: Seq<(Seq<char>, LayerView)>) -> Seq<(Seq<char>, LayerView)>
    decreases entries.len(),
{
    if entries.len() == 0 {
        Seq::empty()
    } else {
        with_layer(layers_of(entries.drop_last()), entries.last().0, entries.last().1)
    }
}

proof fn lemma_layer_position(layers: Seq<(Seq<char>, LayerView)>, name: Seq<char>)
    ensures
        match layer_position(layers, name) {
            Some(i) => 0 <= i < layers.len() && layers[i].0 == name && forall|j: int|
                0 <= j < i ==> (#[trigger] layers[j]).0 != name,
            None => forall|j: int| 0 <= j < layers.len() ==> (#[trigger] layers[j]).0 != name,
        },
    decreases layers.len(),
{
    if layers.len() > 0 {
        let init = layers.drop_last();
        lemma_layer_position(init, name);
        assert forall|j: int| 0 <= j < init.len() implies init[j] == #[trigger] layers[j] by {}
    }
}

proof fn lemma_layer_found(layers: Seq<(Seq<char>, LayerView)>, name: Seq<char>, i: int)
    requires
        0 <= i < layers.len(),
        layers[i].0 == name,
        forall|j: int| 0 <= j < i ==> (#[trigger] layers[j]).0 != name,
    ensures
        layer_position(layers, name) == Some(i),
{
    lemma_layer_position(layers, name);
}

impl LayerMap {
    #[verifier::type_invariant]
    closed spec fn wf(self) -> bool {
        distinct_names(self@)
    }

    pub fn new() -> (r: LayerMap)
        ensures
            r@ == Seq::<(Seq<char>, LayerView)>::empty(),
    {
        let r = LayerMap { entries: Vec::new() };
        assert(r@ =~= Seq::<(Seq<char>, LayerView)>::empty());
        r
    }

    fn position(entries: &Vec<(String, LayerDefinition)>, name: &str) -> (r: Option<usize>)
        ensures
            match r {
                Some(i) => layer_position(entries.deep_view(), name@) == Some(i as int) && i
                    < entries@.len(),
                None => layer_position(entries.deep_view(), name@) is None,
            },
    {
        let mut i: usize = 0;
        while i < entries.len()
            invariant
                i <= entries@.len(),
                forall|j: int| 0 <= j < i ==> (#[trigger] entries.deep_view()[j]).0 != name@,
            decreases entries@.len() - i,
        {
            if same_text(entries[i].0.as_str(), name) {
                proof {
                    assert(entries.deep_view()[i as int].0 == name@);
                    lemma_layer_found(entries.deep_view(), name@, i as int);
                }
                return Some(i);
            }
            i += 1;
        }
        proof {
            lemma_layer_position(entries.deep_view(), name@);
        }
        None
    }

    /// Puts `layer` under `name`, in place of the one that had the name.
    pub fn insert(&mut self, name: String, layer: LayerDefinition)
        ensures
            final(self)@ == with_layer(old(self)@, name@, layer.deep_view()),
            distinct_names(final(self)@),
    {
        proof {
            use_type_invariant(&*self);
            lemma_layer_position(self@, name@);
        }
        let mut entries: Vec<(String, LayerDefinition)> = Vec::new();
        std::mem::swap(&mut entries, &mut self.entries);
        let ghost before = entries.deep_view();
        let ghost key = name@;
        let ghost value = layer.deep_view();
        match Self::position(&entries, name.as_str()) {
            Some(i) => {
                entries[i] = (name, layer);
                assert(entries.deep_view() =~= before.update(i as int, (key, value)));
            },
            None => {
                entries.push((name, layer));
                assert(entries.deep_view() =~= before.push((key, value)));
            },
        }
        proof {
            let after = entries.deep_view();
            assert forall|i: int, j: int| 0 <= i < j < after.len() implies after[i].0
                != after[j].0 by {
                if j < before.len() {
                    assert(before[i].0 != before[j].0);
                }
            }
        }
        self.entries = entries;
    }

    /// The layers of `entries`; where a name occurs twice, the later layer has it.
    pub fn from_entries(entries: Vec<(String, LayerDefinition)>) -> (r: LayerMap)
        ensures
            r@ == layers_of(entries.deep_view()),
            distinct_names(r@),
    {
        let mut r = LayerMap::new();
        let ghost all = entries.deep_view();
        let ghost mut n: int = 0;
        assert(all.take(0) == Seq::<(Seq<char>, LayerView)>::empty());
        for entry in it: entries
            invariant
                it.seq() == entries@,
                all == entries.deep_view(),
                n == it.index(),
                r@ == layers_of(all.take(n)),
                distinct_names(r@),
        {
            let ghost e = entry;
            proof {
                assert(all.take(n + 1).drop_last() == all.take(n));
                assert(all.take(n + 1).last() == e.deep_view());
                n = n + 1;
            }
            let (name, layer) = entry;
            r.insert(name, layer);
        }
        assert(all.take(n) == all);
        r
    }

    pub fn len(&self) -> (r: usize)
        ensures
            r == self@.len(),
    {
        self.entries.len()
    }

    /// The layer called `name`.
    pub fn get(&self, name: &str) -> (r: Option<&LayerDefinition>)
        ensures
            match (r, layer_position(self@, name@)) {
                (Some(layer), Some(i)) => layer.deep_view() == self@[i].1,
                (None, None) => true,
                _ => false,
            },
    {
        match Self::position(&self.entries, name) {
            Some(i) => Some(&self.entries[i].1),
            None => None,
        }
    }
}

impl Clone for LayerDefinition {
    fn clone(&self) -> (r: LayerDefinition)
        ensures
            r.deep_view() == self.deep_view(),
    {
        LayerDefinition {
            path_patterns: clone_strings(&self.path_patterns),
            allowed_dependencies: match &self.allowed_dependencies {
                Some(allowed) => Some(clone_strings(allowed)),
                None => None,
            },
            enforce_interface_boundary: self.enforce_interface_boundary,
            interface_port_layer: clone_optional(&self.interface_port_layer),
            port_path_patterns: clone_strings(&self.port_path_patterns),
        }
    }
}

impl Clone for LayerMap {
    fn clone(&self) -> (r: LayerMap)
        ensures
            r@ == self@,
    {
        proof {
            use_type_invariant(self);
        }
        let mut entries: Vec<(String, LayerDefinition)> = Vec::new();
        let mut i: usize = 0;
        while i < self.entries.len()
            invariant
                i <= self.entries@.len(),
                entries.deep_view() == self.entries.deep_view().take(i as int),
            decreases self.entries@.len() - i,
        {
            let name = self.entries[i].0.clone();
            let layer = self.entries[i].1.clone();
            let ghost before = entries.deep_view();
            let ghost entry = (name, layer);
            entries.push((name, layer));
            assert(entries.deep_view() =~= before.push(entry.deep_view()));
            assert(entry.deep_view() == self.entries.deep_view()[i as int]);
            i += 1;
            assert(entries.deep_view() =~= self.entries.deep_view().take(i as int));
        }
        assert(entries.deep_view() =~= self.entries.deep_view());
        LayerMap { entries }
    }
}

/// A layer, ready to be matched against.
#[derive(Debug, Clone)]
struct CompiledLayer {
    name: String,
    matcher: GlobSet,
    allowed: Option<Vec<String>>,
    port_matcher: Option<GlobSet>,
    port_layer: Option<String>,
}

#[derive(Debug, Clone)]
struct CompiledRule {
    name: String,
    description: Option<String>,
    source_layer_matchers: Vec<GlobSet>,
    forbidden_import_matchers: GlobSet,
    message: String,
    remediation: Vec<String>,
}

/// Pre-compiled glob matchers for hot-path evaluation.
#[derive(Debug, Clone)]
pub struct CompiledArchitectureConfig {
    pub raw: ArchitectureConfig,
    layers: Vec<CompiledLayer>,
    concrete_impl_matchers: GlobSet,
    rule_matchers: Vec<CompiledRule>,
}

#[verifier::ext_equal]
pub struct CompiledLayerView {
    pub name: Seq<char>,
    pub path_patterns: Seq<Seq<char>>,
    pub allowed: Option<Seq<Seq<char>>>,
    /// The patterns of its ports, where it declares any.
    pub port_patterns: Option<Seq<Seq<char>>>,
    /// The layer through whose ports its imports must go, where it enforces that.
    pub port_layer: Option<Seq<char>>,
}

#[verifier::ext_equal]
pub struct RuleMatchView {
    pub name: Seq<char>,
    pub description: Option<Seq<char>>,
    /// The path patterns of each source layer.
    pub source_patterns: Seq<Seq<Seq<char>>>,
    pub forbidden_patterns: Seq<Seq<char>>,
    pub message: Seq<char>,
    pub remediation: Seq<Seq<char>>,
}

#[verifier::ext_equal]
pub struct CompiledConfigView {
    /// What the configuration was compiled from.
    pub declared: ConfigView,
    pub layers: Seq<CompiledLayerView>,
    pub concrete_patterns: Seq<Seq<char>>,
    pub rules: Seq<RuleMatchView>,
}

impl DeepView for CompiledLayer {
    type V = CompiledLayerView;

    closed spec fn deep_view(&self) -> CompiledLayerView {
        CompiledLayerView {
            name: self.name@,
            path_patterns: globs::set_patterns(self.matcher),
            allowed: self.allowed.deep_view(),
            port_patterns: match self.port_matcher {
                Some(set) => Some(globs::set_patterns(set)),
                None => None,
            },
            port_layer: self.port_layer.deep_view(),
        }
    }
}

pub open spec fn all_patterns(sets: Seq<GlobSet>) -> Seq<Seq<Seq<char>>> {
    Seq::new(sets.len(), |i: int| globs::set_patterns(sets[i]))
}

impl DeepView for CompiledRule {
    type V = RuleMatchView;

    closed spec fn deep_view(&self) -> RuleMatchView {
        RuleMatchView {
            name: self.name@,
            description: self.description.deep_view(),
            source_patterns: all_patterns(self.source_layer_matchers@),
            forbidden_patterns: globs::set_patterns(self.forbidden_import_matchers),
            message: self.message@,
            remediation: self.remediation.deep_view(),
        }
    }
}

impl View for CompiledArchitectureConfig {
    type V = CompiledConfigView;

    closed spec fn view(&self) -> CompiledConfigView {
        CompiledConfigView {
            declared: self.raw@,
            layers: self.layers.deep_view(),
            concrete_patterns: globs::set_patterns(self.concrete_impl_matchers),
            rules: self.rule_matchers.deep_view(),
        }
    }
}

impl CompiledArchitectureConfig {
    /// The configuration that was compiled.
    pub closed spec fn declared(&self) -> ArchitectureConfig {
        self.raw
    }
}

/// Default glob patterns that indicate a concrete implementation bypass.
pub open spec fn concrete_impl_patterns() -> Seq<Seq<char>> {
    seq![
        "**/repositories/**"@,
        "**/*Repository*"@,
        "**/infrastructure/**"@,
        "**/data/**"@,
        "**/implementations/**"@,
        "**/adapters/**"@,
    ]
}

pub open spec fn has_layer(layers: Seq<(Seq<char>, LayerView)>, name: Seq<char>) -> bool {
    layer_position(layers, name) is Some
}

/// The first of `names` that no layer has.
pub open spec fn first_unknown(
    layers: Seq<(Seq<char>, LayerView)>,
    names: Seq<Seq<char>>,
) -> Option<Seq<char>>
    decreases names.len(),
{
    if names.len() == 0 {
        None
    } else {
        match first_unknown(layers, names.drop_last()) {
            Some(name) => Some(name),
            None => if has_layer(layers, names.last()) {
                None
            } else {
                Some(names.last())
            },
        }
    }
}

/// The layer whose ports guard `layer`: the declared one, else `domain` where there
/// is such a layer.
pub open spec fn port_layer_of(
    layers: Seq<(Seq<char>, LayerView)>,
    layer: LayerView,
) -> Option<Seq<char>> {
    match layer.interface_port_layer {
        Some(name) => Some(name),
        None => if has_layer(layers, "domain"@) {
            Some("domain"@)
        } else {
            None
        },
    }
}

/// What is wrong with the interface boundary of a layer that enforces one.
pub open spec fn boundary_problem(
    layers: Seq<(Seq<char>, LayerView)>,
    name: Seq<char>,
    layer: LayerView,
) -> Option<Seq<char>> {
    match port_layer_of(layers, layer) {
        None => Some(
            "layer `"@ + name
                + "` has enforce_interface_boundary but no interface_port_layer"@,
        ),
        Some(port_layer) => match layer_position(layers, port_layer) {
            None => Some(
                "layer `"@ + name + "` references unknown interface_port_layer `"@ + port_layer
                    + "`"@,
            ),
            Some(i) => if layers[i].1.port_path_patterns.len() == 0 {
                Some(
                    "layer `"@ + port_layer
                        + "` must define port_path_patterns for interface enforcement"@,
                )
            } else {
                None
            },
        },
    }
}

/// What is wrong with the allowed dependencies of a layer.
pub open spec fn allowlist_problem(
    layers: Seq<(Seq<char>, LayerView)>,
    name: Seq<char>,
    layer: LayerView,
) -> Option<Seq<char>> {
    match layer.allowed_dependencies {
        Some(allowed) => match first_unknown(layers, allowed) {
            Some(dep) => Some(
                "layer `"@ + name + "` references unknown allowed dependency `"@ + dep + "`"@,
            ),
            None => None,
        },
        None => None,
    }
}

/// What is wrong with a layer: first its path patterns, then its allowed
/// dependencies, then its port patterns, then its interface boundary.
pub open spec fn layer_problem(
    layers: Seq<(Seq<char>, LayerView)>,
    name: Seq<char>,
    layer: LayerView,
) -> Option<Seq<char>> {
    match globs::patterns_error(layer.path_patterns) {
        Some(error) => Some("layer `"@ + name + "`: "@ + error),
        None => match allowlist_problem(layers, name, layer) {
            Some(problem) => Some(problem),
            None => if layer.port_path_patterns.len() > 0 && globs::patterns_error(
                layer.port_path_patterns,
            ) is Some {
                Some(
                    "layer `"@ + name + "` port patterns: "@ + globs::patterns_error(
                        layer.port_path_patterns,
                    )->0,
                )
            } else if layer.enforce_interface_boundary {
                boundary_problem(layers, name, layer)
            } else {
                None
            },
        },
    }
}

/// What is wrong with the first of the first `n` layers that has a problem.
pub open spec fn first_layer_problem(layers: Seq<(Seq<char>, LayerView)>, n: int) -> Option<
    Seq<char>,
>
    decreases n,
{
    if n <= 0 {
        None
    } else {
        match first_layer_problem(layers, n - 1) {
            Some(problem) => Some(problem),
            None => layer_problem(layers, layers[n - 1].0, layers[n - 1].1),
        }
    }
}

/// What is wrong with a rule: first its source layers, then its patterns.
pub open spec fn rule_problem(layers: Seq<(Seq<char>, LayerView)>, rule: RuleView) -> Option<
    Seq<char>,
> {
    match first_unknown(layers, rule.source_layers) {
        Some(name) => Some(
            "rule `"@ + rule.name + "` references unknown layer `"@ + name + "`"@,
        ),
        None => match globs::patterns_error(rule.forbidden_import_patterns) {
            Some(error) => Some("rule `"@ + rule.name + "`: "@ + error),
            None => None,
        },
    }
}

/// What is wrong with the first of the first `n` rules that has a problem.
pub open spec fn first_rule_problem(
    layers: Seq<(Seq<char>, LayerView)>,
    rules: Seq<RuleView>,
    n: int,
) -> Option<Seq<char>>
    decreases n,
{
    if n <= 0 {
        None
    } else {
        match first_rule_problem(layers, rules, n - 1) {
            Some(problem) => Some(problem),
            None => rule_problem(layers, rules[n - 1]),
        }
    }
}

/// What is wrong with a configuration: first its layers, then its rules.
pub open spec fn config_problem(config: ConfigView) -> Option<Seq<char>> {
    match first_layer_problem(config.layers, config.layers.len() as int) {
        Some(problem) => Some(problem),
        None => match globs::patterns_error(concrete_impl_patterns()) {
            Some(error) => Some("concrete implementation patterns: "@ + error),
            None => first_rule_problem(config.layers, config.rules, config.rules.len() as int),
        },
    }
}

pub open spec fn compiled_layer(
    layers: Seq<(Seq<char>, LayerView)>,
    name: Seq<char>,
    layer: LayerView,
) -> CompiledLayerView {
    CompiledLayerView {
        name,
        path_patterns: layer.path_patterns,
        allowed: layer.allowed_dependencies,
        port_patterns: if layer.port_path_patterns.len() > 0 {
            Some(layer.port_path_patterns)
        } else {
            None
        },
        port_layer: if layer.enforce_interface_boundary {
            port_layer_of(layers, layer)
        } else {
            None
        },
    }
}

/// The path patterns of the layer called `name`.
pub open spec fn patterns_of(layers: Seq<(Seq<char>, LayerView)>, name: Seq<char>) -> Seq<
    Seq<char>,
> {
    layers[layer_position(layers, name)->0].1.path_patterns
}

pub open spec fn compiled_rule(layers: Seq<(Seq<char>, LayerView)>, rule: RuleView) -> RuleMatchView {
    RuleMatchView {
        name: rule.name,
        description: rule.description,
        source_patterns: Seq::new(
            rule.source_layers.len(),
            |i: int| patterns_of(layers, rule.source_layers[i]),
        ),
        forbidden_patterns: rule.forbidden_import_patterns,
        message: rule.message,
        remediation: rule.remediation,
    }
}

/// What a configuration without problems compiles to.
pub open spec fn compiled(config: ConfigView) -> CompiledConfigView {
    CompiledConfigView {
        declared: config,
        layers: Seq::new(
            config.layers.len(),
            |i: int| compiled_layer(config.layers, config.layers[i].0, config.layers[i].1),
        ),
        concrete_patterns: concrete_impl_patterns(),
        rules: Seq::new(config.rules.len(), |i: int| compiled_rule(config.layers, config.rules[i])),
    }
}

proof fn lemma_unknown_name_stays(
    layers: Seq<(Seq<char>, LayerView)>,
    names: Seq<Seq<char>>,
    n: int,
)
    requires
        0 <= n <= names.len(),
        first_unknown(layers, names.take(n)) is Some,
    ensures
        first_unknown(layers, names) == first_unknown(layers, names.take(n)),
    decreases names.len(),
{
    if n == names.len() {
        assert(names.take(n) == names);
    } else {
        assert(names.drop_last().take(n) == names.take(n));
        lemma_unknown_name_stays(layers, names.drop_last(), n);
    }
}

proof fn lemma_known_names(layers: Seq<(Seq<char>, LayerView)>, names: Seq<Seq<char>>)
    requires
        first_unknown(layers, names) is None,
    ensures
        forall|i: int| 0 <= i < names.len() ==> has_layer(layers, #[trigger] names[i]),
    decreases names.len(),
{
    if names.len() > 0 {
        lemma_known_names(layers, names.drop_last());
        assert forall|i: int| 0 <= i < names.len() implies has_layer(layers, #[trigger] names[i]) by {
            if i < names.len() - 1 {
                assert(names.drop_last()[i] == names[i]);
            }
        }
    }
}

proof fn lemma_layer_problem_stays(layers: Seq<(Seq<char>, LayerView)>, n: int, m: int)
    requires
        n <= m,
        first_layer_problem(layers, n) is Some,
    ensures
        first_layer_problem(layers, m) == first_layer_problem(layers, n),
    decreases m - n,
{
    if n < m {
        lemma_layer_problem_stays(layers, n, m - 1);
        if m <= 0 {
            assert(first_layer_problem(layers, n) is None);
        }
    }
}

proof fn lemma_rule_problem_stays(
    layers: Seq<(Seq<char>, LayerView)>,
    rules: Seq<RuleView>,
    n: int,
    m: int,
)
    requires
        n <= m,
        first_rule_problem(layers, rules, n) is Some,
    ensures
        first_rule_problem(layers, rules, m) == first_rule_problem(layers, rules, n),
    decreases m - n,
{
    if n < m {
        lemma_rule_problem_stays(layers, rules, n, m - 1);
        if m <= 0 {
            assert(first_rule_problem(layers, rules, n) is None);
        }
    }
}

impl LayerMap {
    fn find_unknown<'a>(&self, names: &'a Vec<String>) -> (r: Option<&'a String>)
        ensures
            r.deep_view() == first_unknown(self@, names.deep_view()),
    {
        let mut i: usize = 0;
        while i < names.len()
            invariant
                i <= names@.len(),
                first_unknown(self@, names.deep_view().take(i as int)) is None,
            decreases names@.len() - i,
        {
            proof {
                let upto = names.deep_view().take(i + 1);
                assert(upto.drop_last() == names.deep_view().take(i as int));
                assert(upto.last() == names@[i as int]@);
            }
            if self.get(names[i].as_str()).is_none() {
                proof {
                    lemma_unknown_name_stays(self@, names.deep_view(), i + 1);
                }
                return Some(&names[i]);
            }
            i += 1;
        }
        assert(names.deep_view().take(i as int) == names.deep_view());
        None
    }

    fn port_layer(&self, layer: &LayerDefinition) -> (r: Option<String>)
        ensures
            r.deep_view() == port_layer_of(self@, layer.deep_view()),
    {
        match &layer.interface_port_layer {
            Some(name) => Some(name.clone()),
            None => {
                if self.get("domain").is_some() {
                    Some("domain".to_owned())
                } else {
                    None
                }
            },
        }
    }

    /// The layer through whose ports the imports of `layer` must go.
    fn check_boundary(&self, name: &str, layer: &LayerDefinition) -> (r: Result<String, String>)
        ensures
            match r {
                Ok(port_layer) => boundary_problem(self@, name@, layer.deep_view()) is None && Some(
                    port_layer@,
                ) == port_layer_of(self@, layer.deep_view()),
                Err(problem) => boundary_problem(self@, name@, layer.deep_view()) == Some(problem@),
            },
    {
        let port_layer = match self.port_layer(layer) {
            Some(port_layer) => port_layer,
            None => {
                return Err(
                    "layer `".to_owned().concat(name).concat(
                        "` has enforce_interface_boundary but no interface_port_layer",
                    ),
                );
            },
        };
        match self.get(port_layer.as_str()) {
            None => {
                let mut problem = quoted(
                    "layer `",
                    name,
                    "` references unknown interface_port_layer `",
                    port_layer.as_str(),
                );
                problem.append("`");
                Err(problem)
            },
            Some(owner) => {
                if owner.port_path_patterns.len() == 0 {
                    Err(
                        "layer `".to_owned().concat(port_layer.as_str()).concat(
                            "` must define port_path_patterns for interface enforcement",
                        ),
                    )
                } else {
                    Ok(port_layer)
                }
            },
        }
    }

    fn compile_layer(&self, name: &String, layer: &LayerDefinition) -> (r: Result<
        CompiledLayer,
        String,
    >)
        ensures
            match r {
                Ok(ready) => layer_problem(self@, name@, layer.deep_view()) is None
                    && ready.deep_view() == compiled_layer(self@, name@, layer.deep_view()),
                Err(problem) => layer_problem(self@, name@, layer.deep_view()) == Some(problem@),
            },
    {
        let slice = layer.path_patterns.as_slice();
        assert(slice.deep_view() =~= layer.deep_view().path_patterns);
        let matcher = match build_glob_set(slice) {
            Ok(matcher) => matcher,
            Err(error) => {
                let text = describe_glob_error(&error);
                return Err(quoted("layer `", name.as_str(), "`: ", text.as_str()));
            },
        };
        let allowed = match &layer.allowed_dependencies {
            Some(allowed) => {
                if let Some(dep) = self.find_unknown(allowed) {
                    let mut problem = quoted(
                        "layer `",
                        name.as_str(),
                        "` references unknown allowed dependency `",
                        dep.as_str(),
                    );
                    problem.append("`");
                    return Err(problem);
                }
                Some(clone_strings(allowed))
            },
            None => None,
        };
        let port_matcher = if layer.port_path_patterns.len() > 0 {
            let ports = layer.port_path_patterns.as_slice();
            assert(ports.deep_view() =~= layer.deep_view().port_path_patterns);
            match build_glob_set(ports) {
                Ok(matcher) => Some(matcher),
                Err(error) => {
                    let text = describe_glob_error(&error);
                    return Err(
                        quoted("layer `", name.as_str(), "` port patterns: ", text.as_str()),
                    );
                },
            }
        } else {
            None
        };
        let port_layer = if layer.enforce_interface_boundary {
            match self.check_boundary(name.as_str(), layer) {
                Ok(port_layer) => Some(port_layer),
                Err(problem) => {
                    return Err(problem);
                },
            }
        } else {
            None
        };
        Ok(CompiledLayer { name: name.clone(), matcher, allowed, port_matcher, port_layer })
    }

    fn compile_layers(&self) -> (r: Result<Vec<CompiledLayer>, String>)
        ensures
            match r {
                Ok(ready) => first_layer_problem(self@, self@.len() as int) is None
                    && ready.deep_view() == Seq::new(
                    self@.len(),
                    |i: int| compiled_layer(self@, self@[i].0, self@[i].1),
                ),
                Err(problem) => first_layer_problem(self@, self@.len() as int) == Some(problem@),
            },
    {
        let mut ready: Vec<CompiledLayer> = Vec::new();
        let ghost target = Seq::new(
            self@.len(),
            |i: int| compiled_layer(self@, self@[i].0, self@[i].1),
        );
        let mut i: usize = 0;
        while i < self.entries.len()
            invariant
                i <= self.entries@.len(),
                target == Seq::new(
                    self@.len(),
                    |i: int| compiled_layer(self@, self@[i].0, self@[i].1),
                ),
                first_layer_problem(self@, i as int) is None,
                ready.deep_view() == target.take(i as int),
            decreases self.entries@.len() - i,
        {
            let entry = &self.entries[i];
            assert(self@[i as int] == entry.deep_view());
            match self.compile_layer(&entry.0, &entry.1) {
                Ok(layer) => {
                    let ghost before = ready.deep_view();
                    let ghost view = layer.deep_view();
                    ready.push(layer);
                    assert(ready.deep_view() =~= before.push(view));
                    assert(ready.deep_view() =~= target.take(i + 1));
                },
                Err(problem) => {
                    proof {
                        lemma_layer_problem_stays(self@, i + 1, self@.len() as int);
                    }
                    return Err(problem);
                },
            }
            i += 1;
        }
        assert(target.take(i as int) =~= target);
        Ok(ready)
    }
}

fn source_matchers(layers: &LayerMap, ready: &Vec<CompiledLayer>, names: &Vec<String>) -> (r: Vec<
    GlobSet,
>)
    requires
        first_unknown(layers@, names.deep_view()) is None,
        ready.deep_view() == Seq::new(
            layers@.len(),
            |i: int| compiled_layer(layers@, layers@[i].0, layers@[i].1),
        ),
    ensures
        all_patterns(r@) == Seq::new(
            names@.len(),
            |i: int| patterns_of(layers@, names.deep_view()[i]),
        ),
{
    let mut matchers: Vec<GlobSet> = Vec::new();
    let mut i: usize = 0;
    proof {
        lemma_known_names(layers@, names.deep_view());
    }
    while i < names.len()
        invariant
            i <= names@.len(),
            forall|j: int|
                0 <= j < names@.len() ==> has_layer(layers@, #[trigger] names.deep_view()[j]),
            ready.deep_view() == Seq::new(
                layers@.len(),
                |i: int| compiled_layer(layers@, layers@[i].0, layers@[i].1),
            ),
            matchers@.len() == i,
            forall|j: int|
                0 <= j < i ==> globs::set_patterns(#[trigger] matchers@[j]) == patterns_of(
                    layers@,
                    names.deep_view()[j],
                ),
        decreases names@.len() - i,
    {
        assert(has_layer(layers@, names.deep_view()[i as int]));
        if let Some(at) = LayerMap::position(&layers.entries, names[i].as_str()) {
            assert(ready.deep_view().len() == ready@.len());
            assert(ready.deep_view()[at as int] == ready@[at as int].deep_view());
            matchers.push(ready[at].matcher.clone());
        }
        i += 1;
    }
    assert(all_patterns(matchers@) =~= Seq::new(
        names@.len(),
        |i: int| patterns_of(layers@, names.deep_view()[i]),
    ));
    matchers
}

fn compile_rule(layers: &LayerMap, ready: &Vec<CompiledLayer>, rule: &ArchitecturalRule) -> (r:
    Result<CompiledRule, String>)
    requires
        ready.deep_view() == Seq::new(
            layers@.len(),
            |i: int| compiled_layer(layers@, layers@[i].0, layers@[i].1),
        ),
    ensures
        match r {
            Ok(made) => rule_problem(layers@, rule.deep_view()) is None && made.deep_view()
                == compiled_rule(layers@, rule.deep_view()),
            Err(problem) => rule_problem(layers@, rule.deep_view()) == Some(problem@),
        },
{
    if let Some(name) = layers.find_unknown(&rule.source_layers) {
        let mut problem = quoted(
            "rule `",
            rule.name.as_str(),
            "` references unknown layer `",
            name.as_str(),
        );
        problem.append("`");
        return Err(problem);
    }
    let source_layer_matchers = source_matchers(layers, ready, &rule.source_layers);
    let forbidden = rule.forbidden_import_patterns.as_slice();
    assert(forbidden.deep_view() =~= rule.deep_view().forbidden_import_patterns);
    let forbidden_import_matchers = match build_glob_set(forbidden) {
        Ok(matcher) => matcher,
        Err(error) => {
            let text = describe_glob_error(&error);
            return Err(quoted("rule `", rule.name.as_str(), "`: ", text.as_str()));
        },
    };
    let made = CompiledRule {
        name: rule.name.clone(),
        description: clone_optional(&rule.description),
        source_layer_matchers,
        forbidden_import_matchers,
        message: rule.message.clone(),
        remediation: clone_strings(&rule.remediation),
    };
    assert(made.deep_view() =~= compiled_rule(layers@, rule.deep_view()));
    Ok(made)
}

fn compile_rules(layers: &LayerMap, ready: &Vec<CompiledLayer>, rules: &Vec<ArchitecturalRule>) -> (r:
    Result<Vec<CompiledRule>, String>)
    requires
        ready.deep_view() == Seq::new(
            layers@.len(),
            |i: int| compiled_layer(layers@, layers@[i].0, layers@[i].1),
        ),
    ensures
        match r {
            Ok(made) => first_rule_problem(layers@, rules.deep_view(), rules@.len() as int) is None
                && made.deep_view() == Seq::new(
                rules@.len(),
                |i: int| compiled_rule(layers@, rules.deep_view()[i]),
            ),
            Err(problem) => first_rule_problem(layers@, rules.deep_view(), rules@.len() as int)
                == Some(problem@),
        },
{
    let mut made: Vec<CompiledRule> = Vec::new();
    let ghost target = Seq::new(
        rules@.len(),
        |i: int| compiled_rule(layers@, rules.deep_view()[i]),
    );
    let mut i: usize = 0;
    while i < rules.len()
        invariant
            i <= rules@.len(),
            ready.deep_view() == Seq::new(
                layers@.len(),
                |i: int| compiled_layer(layers@, layers@[i].0, layers@[i].1),
            ),
            target == Seq::new(
                rules@.len(),
                |i: int| compiled_rule(layers@, rules.deep_view()[i]),
            ),
            first_rule_problem(layers@, rules.deep_view(), i as int) is None,
            made.deep_view() == target.take(i as int),
        decreases rules@.len() - i,
    {
        assert(rules.deep_view()[i as int] == rules@[i as int].deep_view());
        match compile_rule(layers, ready, &rules[i]) {
            Ok(rule) => {
                let ghost before = made.deep_view();
                let ghost view = rule.deep_view();
                made.push(rule);
                assert(made.deep_view() =~= before.push(view));
                assert(made.deep_view() =~= target.take(i + 1));
            },
            Err(problem) => {
                proof {
                    lemma_rule_problem_stays(
                        layers@,
                        rules.deep_view(),
                        i + 1,
                        rules@.len() as int,
                    );
                }
                return Err(problem);
            },
        }
        i += 1;
    }
    assert(target.take(i as int) =~= target);
    Ok(made)
}

fn default_concrete_impl_patterns() -> (r: Vec<String>)
    ensures
        r.deep_view() == concrete_impl_patterns(),
{
    let patterns = vec![
        "**/repositories/**".to_owned(),
        "**/*Repository*".to_owned(),
        "**/infrastructure/**".to_owned(),
        "**/data/**".to_owned(),
        "**/implementations/**".to_owned(),
        "**/adapters/**".to_owned(),
    ];
    assert(patterns.deep_view() =~= concrete_impl_patterns());
    patterns
}

impl ArchitectureConfig {
    /// Compiles every pattern and checks every reference between layers and rules.
    pub fn compile(self) -> (r: AddResult<CompiledArchitectureConfig>)
        ensures
            match r {
                Ok(made) => config_problem(self@) is None && made@ == compiled(self@)
                    && made.declared() == self,
                Err(error) => config_problem(self@) is Some && error@ == ErrorView::QueryCompile(
                    config_problem(self@)->0,
                ),
            },
    {
        let layers = match self.layers.compile_layers() {
            Ok(layers) => layers,
            Err(problem) => {
                return Err(AddError::QueryCompile(problem));
            },
        };
        let patterns = default_concrete_impl_patterns();
        let slice = patterns.as_slice();
        assert(slice.deep_view() =~= concrete_impl_patterns());
        let concrete_impl_matchers = match build_glob_set(slice) {
            Ok(matcher) => matcher,
            Err(error) => {
                let text = describe_glob_error(&error);
                return Err(
                    AddError::QueryCompile(
                        "concrete implementation patterns: ".to_owned().concat(text.as_str()),
                    ),
                );
            },
        };
        let rule_matchers = match compile_rules(&self.layers, &layers, &self.rules) {
            Ok(rules) => rules,
            Err(problem) => {
                return Err(AddError::QueryCompile(problem));
            },
        };
        let made = CompiledArchitectureConfig {
            raw: self,
            layers,
            concrete_impl_matchers,
            rule_matchers,
        };
        assert(made@ =~= compiled(self@));
        Ok(made)
    }
}

/// The name of the first layer whose patterns match `path`.
pub open spec fn matching_layer(layers: Seq<CompiledLayerView>, path: Seq<char>) -> Option<
    Seq<char>,
>
    decreases layers.len(),
{
    if layers.len() == 0 {
        None
    } else {
        match matching_layer(layers.drop_last(), path) {
            Some(name) => Some(name),
            None => if globs::matches_any(layers.last().path_patterns, path) {
                Some(layers.last().name)
            } else {
                None
            },
        }
    }
}

/// The layer called `name`.
pub open spec fn layer_named(layers: Seq<CompiledLayerView>, name: Seq<char>) -> Option<
    CompiledLayerView,
>
    decreases layers.len(),
{
    if layers.len() == 0 {
        None
    } else {
        match layer_named(layers.drop_last(), name) {
            Some(layer) => Some(layer),
            None => if layers.last().name == name {
                Some(layers.last())
            } else {
                None
            },
        }
    }
}

/// The layers that the layer called `name` may depend on, where it limits them.
pub open spec fn allowed_dependencies(config: CompiledConfigView, name: Seq<char>) -> Option<
    Seq<Seq<char>>,
> {
    match layer_named(config.layers, name) {
        Some(layer) => layer.allowed,
        None => None,
    }
}

/// The layer through whose ports the imports of the layer called `name` must go.
pub open spec fn interface_port_layer(config: CompiledConfigView, name: Seq<char>) -> Option<
    Seq<char>,
> {
    match layer_named(config.layers, name) {
        Some(layer) => layer.port_layer,
        None => None,
    }
}

/// The patterns of the ports that the layer called `name` declares.
pub open spec fn port_patterns(config: CompiledConfigView, name: Seq<char>) -> Option<
    Seq<Seq<char>>,
> {
    match layer_named(config.layers, name) {
        Some(layer) => layer.port_patterns,
        None => None,
    }
}

/// The layers that limit their dependencies, with what they allow.
pub open spec fn allowlists(layers: Seq<CompiledLayerView>) -> Seq<(Seq<char>, Seq<Seq<char>>)>
    decreases layers.len(),
{
    if layers.len() == 0 {
        Seq::empty()
    } else {
        match layers.last().allowed {
            Some(allowed) => allowlists(layers.drop_last()).push((layers.last().name, allowed)),
            None => allowlists(layers.drop_last()),
        }
    }
}

/// The names of the layers whose imports must go through ports.
pub open spec fn guarded_layers(layers: Seq<CompiledLayerView>) -> Seq<Seq<char>>
    decreases layers.len(),
{
    if layers.len() == 0 {
        Seq::empty()
    } else if layers.last().port_layer is Some {
        guarded_layers(layers.drop_last()).push(layers.last().name)
    } else {
        guarded_layers(layers.drop_last())
    }
}

proof fn lemma_matching_layer_stays(layers: Seq<CompiledLayerView>, path: Seq<char>, n: int)
    requires
        0 <= n <= layers.len(),
        matching_layer(layers.take(n), path) is Some,
    ensures
        matching_layer(layers, path) == matching_layer(layers.take(n), path),
    decreases layers.len(),
{
    if n == layers.len() {
        assert(layers.take(n) == layers);
    } else {
        assert(layers.drop_last().take(n) == layers.take(n));
        lemma_matching_layer_stays(layers.drop_last(), path, n);
    }
}

proof fn lemma_layer_named_stays(layers: Seq<CompiledLayerView>, name: Seq<char>, n: int)
    requires
        0 <= n <= layers.len(),
        layer_named(layers.take(n), name) is Some,
    ensures
        layer_named(layers, name) == layer_named(layers.take(n), name),
    decreases layers.len(),
{
    if n == layers.len() {
        assert(layers.take(n) == layers);
    } else {
        assert(layers.drop_last().take(n) == layers.take(n));
        lemma_layer_named_stays(layers.drop_last(), name, n);
    }
}

/// Borrowed view of a compiled rule for the validator hot path.
#[derive(Debug, Clone, Copy)]
pub struct CompiledRuleView<'a> {
    pub name: &'a str,
    pub description: Option<&'a str>,
    pub source_layer_matchers: &'a [GlobSet],
    pub forbidden_import_matchers: &'a GlobSet,
    pub message: &'a str,
    pub remediation: &'a [String],
}

impl<'a> DeepView for CompiledRuleView<'a> {
    type V = RuleMatchView;

    open spec fn deep_view(&self) -> RuleMatchView {
        RuleMatchView {
            name: self.name@,
            description: self.description.deep_view(),
            source_patterns: all_patterns(self.source_layer_matchers@),
            forbidden_patterns: globs::set_patterns(*self.forbidden_import_matchers),
            message: self.message@,
            remediation: self.remediation.deep_view(),
        }
    }
}

impl CompiledArchitectureConfig {
    /// The layer to which the file at `normalized_path` belongs: the first whose
    /// patterns match it.
    pub fn layer_for_path(&self, normalized_path: &str) -> (r: Option<&str>)
        ensures
            r.deep_view() == matching_layer(self@.layers, normalized_path@),
    {
        let mut i: usize = 0;
        let ghost layers = self@.layers;
        while i < self.layers.len()
            invariant
                i <= self.layers@.len(),
                layers == self.layers.deep_view(),
                matching_layer(layers.take(i as int), normalized_path@) is None,
            decreases self.layers@.len() - i,
        {
            proof {
                assert(layers.take(i + 1).drop_last() == layers.take(i as int));
                assert(layers.take(i + 1).last() == self.layers@[i as int].deep_view());
            }
            if glob_set_matches(&self.layers[i].matcher, normalized_path) {
                proof {
                    lemma_matching_layer_stays(layers, normalized_path@, i + 1);
                }
                return Some(self.layers[i].name.as_str());
            }
            i += 1;
        }
        assert(layers.take(i as int) == layers);
        None
    }

    fn find(&self, name: &str) -> (r: Option<&CompiledLayer>)
        ensures
            r.deep_view() == layer_named(self@.layers, name@),
    {
        let mut i: usize = 0;
        let ghost layers = self@.layers;
        while i < self.layers.len()
            invariant
                i <= self.layers@.len(),
                layers == self.layers.deep_view(),
                layer_named(layers.take(i as int), name@) is None,
            decreases self.layers@.len() - i,
        {
            proof {
                assert(layers.take(i + 1).drop_last() == layers.take(i as int));
                assert(layers.take(i + 1).last() == self.layers@[i as int].deep_view());
            }
            if same_text(self.layers[i].name.as_str(), name) {
                proof {
                    lemma_layer_named_stays(layers, name@, i + 1);
                }
                return Some(&self.layers[i]);
            }
            i += 1;
        }
        assert(layers.take(i as int) == layers);
        None
    }

    pub fn allowed_dependencies_for_layer(&self, layer: &str) -> (r: Option<&[String]>)
        ensures
            r.deep_view() == allowed_dependencies(self@, layer@),
    {
        match self.find(layer) {
            Some(found) => match &found.allowed {
                Some(allowed) => {
                    let slice = allowed.as_slice();
                    assert(slice.deep_view() =~= allowed.deep_view());
                    Some(slice)
                },
                None => None,
            },
            None => None,
        }
    }

    pub fn layers_with_allowlists(&self) -> (r: Vec<(&str, &[String])>)
        ensures
            r.deep_view() == allowlists(self@.layers),
    {
        let mut found: Vec<(&str, &[String])> = Vec::new();
        let mut i: usize = 0;
        let ghost layers = self@.layers;
        assert(found.deep_view() =~= allowlists(layers.take(0)));
        while i < self.layers.len()
            invariant
                i <= self.layers@.len(),
                layers == self.layers.deep_view(),
                found.deep_view() == allowlists(layers.take(i as int)),
            decreases self.layers@.len() - i,
        {
            let layer = &self.layers[i];
            proof {
                assert(layers.take(i + 1).drop_last() == layers.take(i as int));
                assert(layers.take(i + 1).last() == layer.deep_view());
            }
            if let Some(allowed) = &layer.allowed {
                let slice = allowed.as_slice();
                assert(slice.deep_view() =~= allowed.deep_view());
                let ghost before = found.deep_view();
                let entry = (layer.name.as_str(), slice);
                found.push(entry);
                assert(found.deep_view() =~= before.push(entry.deep_view()));
            }
            i += 1;
        }
        assert(layers.take(i as int) == layers);
        found
    }

    pub fn interface_port_layer_for(&self, layer: &str) -> (r: Option<&str>)
        ensures
            r.deep_view() == interface_port_layer(self@, layer@),
    {
        match self.find(layer) {
            Some(found) => match &found.port_layer {
                Some(port_layer) => Some(port_layer.as_str()),
                None => None,
            },
            None => None,
        }
    }

    pub fn port_matchers_for_layer(&self, layer: &str) -> (r: Option<&GlobSet>)
        ensures
            match (r, port_patterns(self@, layer@)) {
                (Some(set), Some(patterns)) => globs::set_patterns(*set) == patterns,
                (None, None) => true,
                _ => false,
            },
    {
        match self.find(layer) {
            Some(found) => match &found.port_matcher {
                Some(matcher) => Some(matcher),
                None => None,
            },
            None => None,
        }
    }

    pub fn layers_with_interface_enforcement(&self) -> (r: Vec<&str>)
        ensures
            r.deep_view() == guarded_layers(self@.layers),
    {
        let mut found: Vec<&str> = Vec::new();
        let mut i: usize = 0;
        let ghost layers = self@.layers;
        assert(found.deep_view() =~= guarded_layers(layers.take(0)));
        while i < self.layers.len()
            invariant
                i <= self.layers@.len(),
                layers == self.layers.deep_view(),
                found.deep_view() == guarded_layers(layers.take(i as int)),
            decreases self.layers@.len() - i,
        {
            let layer = &self.layers[i];
            proof {
                assert(layers.take(i + 1).drop_last() == layers.take(i as int));
                assert(layers.take(i + 1).last() == layer.deep_view());
            }
            if layer.port_layer.is_some() {
                let ghost before = found.deep_view();
                found.push(layer.name.as_str());
                assert(found.deep_view() =~= before.push(layer.name@));
            }
            i += 1;
        }
        assert(layers.take(i as int) == layers);
        found
    }

    pub fn concrete_impl_matchers(&self) -> (r: &GlobSet)
        ensures
            globs::set_patterns(*r) == self@.concrete_patterns,
    {
        &self.concrete_impl_matchers
    }

    pub fn compiled_rules(&self) -> (r: Vec<CompiledRuleView<'_>>)
        ensures
            r.deep_view() == self@.rules,
    {
        let mut views: Vec<CompiledRuleView<'_>> = Vec::new();
        let mut i: usize = 0;
        let ghost rules = self@.rules;
        while i < self.rule_matchers.len()
            invariant
                i <= self.rule_matchers@.len(),
                rules == self.rule_matchers.deep_view(),
                views.deep_view() == rules.take(i as int),
            decreases self.rule_matchers@.len() - i,
        {
            let rule = &self.rule_matchers[i];
            let view = CompiledRuleView {
                name: rule.name.as_str(),
                description: match &rule.description {
                    Some(description) => Some(description.as_str()),
                    None => None,
                },
                source_layer_matchers: rule.source_layer_matchers.as_slice(),
                forbidden_import_matchers: &rule.forbidden_import_matchers,
                message: rule.message.as_str(),
                remediation: rule.remediation.as_slice(),
            };
            let ghost before = views.deep_view();
            assert(view.deep_view() =~= rule.deep_view());
            assert(rule.deep_view() == rules[i as int]);
            views.push(view);
            assert(views.deep_view() =~= before.push(view.deep_view()));
            i += 1;
            assert(views.deep_view() =~= rules.take(i as int));
        }
        assert(rules.take(i as int) =~= rules);
        views
    }
}

proof fn lemma_named_as_declared(config: ConfigView, name: Seq<char>, n: int)
    requires
        0 <= n <= config.layers.len(),
    ensures
        layer_named(compiled(config).layers.take(n), name) == (match layer_position(
            config.layers.take(n),
            name,
        ) {
            Some(i) => Some(compiled(config).layers[i]),
            None => None,
        }),
    decreases n,
{
    let made = compiled(config).layers;
    if n > 0 {
        lemma_named_as_declared(config, name, n - 1);
        assert(made.take(n).drop_last() == made.take(n - 1));
        assert(config.layers.take(n).drop_last() == config.layers.take(n - 1));
        lemma_layer_position(config.layers.take(n - 1), name);
    }
}

/// A compiled layer is found under the name under which it was declared, and under
/// no other.
pub proof fn layers_keep_their_names(config: ConfigView, name: Seq<char>)
    ensures
        match layer_position(config.layers, name) {
            Some(i) => 0 <= i < config.layers.len() && config.layers[i].0 == name && layer_named(
                compiled(config).layers,
                name,
            ) == Some(compiled_layer(config.layers, name, config.layers[i].1)),
            None => layer_named(compiled(config).layers, name) is None,
        },
{
    let n = config.layers.len() as int;
    lemma_named_as_declared(config, name, n);
    assert(compiled(config).layers.take(n) == compiled(config).layers);
    assert(config.layers.take(n) == config.layers);
    lemma_layer_position(config.layers, name);
}

proof fn lemma_no_layer_problem(layers: Seq<(Seq<char>, LayerView)>, n: int)
    ensures
        first_layer_problem(layers, n) is None <==> forall|i: int|
            0 <= i < n ==> layer_problem(layers, (#[trigger] layers[i]).0, layers[i].1) is None,
    decreases n,
{
    if n > 0 {
        lemma_no_layer_problem(layers, n - 1);
        if first_layer_problem(layers, n) is Some {
            if first_layer_problem(layers, n - 1) is None {
                assert(layer_problem(layers, layers[n - 1].0, layers[n - 1].1) is Some);
            }
        }
    }
}

proof fn lemma_no_rule_problem(
    layers: Seq<(Seq<char>, LayerView)>,
    rules: Seq<RuleView>,
    n: int,
)
    ensures
        first_rule_problem(layers, rules, n) is None <==> forall|i: int|
            0 <= i < n ==> rule_problem(layers, #[trigger] rules[i]) is None,
    decreases n,
{
    if n > 0 {
        lemma_no_rule_problem(layers, rules, n - 1);
        if first_rule_problem(layers, rules, n) is Some {
            if first_rule_problem(layers, rules, n - 1) is None {
                assert(rule_problem(layers, rules[n - 1]) is Some);
            }
        }
    }
}

/// A configuration is accepted exactly where each layer and each rule, taken on its
/// own, is: the order in which they are declared decides nothing.
pub proof fn acceptance_is_of_each_part(config: ConfigView)
    ensures
        config_problem(config) is None <==> {
            &&& forall|i: int|
                0 <= i < config.layers.len() ==> layer_problem(
                    config.layers,
                    (#[trigger] config.layers[i]).0,
                    config.layers[i].1,
                ) is None
            &&& globs::patterns_error(concrete_impl_patterns()) is None
            &&& forall|i: int|
                0 <= i < config.rules.len() ==> rule_problem(
                    config.layers,
                    #[trigger] config.rules[i],
                ) is None
        },
{
    lemma_no_layer_problem(config.layers, config.layers.len() as int);
    lemma_no_rule_problem(config.layers, config.rules, config.rules.len() as int);
}

/// In an accepted configuration a layer that must import through ports has a port
/// layer, and that layer declares ports.
pub proof fn accepted_boundaries_have_ports(config: ConfigView, name: Seq<char>)
    requires
        config_problem(config) is None,
    ensures
        interface_port_layer(compiled(config), name) matches Some(port_layer) ==> port_patterns(
            compiled(config),
            port_layer,
        ) is Some,
        match layer_position(config.layers, name) {
            Some(i) => interface_port_layer(compiled(config), name) is Some
                <==> config.layers[i].1.enforce_interface_boundary,
            None => interface_port_layer(compiled(config), name) is None,
        },
{
    layers_keep_their_names(config, name);
    if let Some(i) = layer_position(config.layers, name) {
        lemma_no_layer_problem(config.layers, config.layers.len() as int);
        assert(layer_problem(config.layers, config.layers[i].0, config.layers[i].1) is None);
        if let Some(port_layer) = interface_port_layer(compiled(config), name) {
            layers_keep_their_names(config, port_layer);
        }
    }
}

/// In an accepted configuration every layer that an allowlist or a rule names is
/// declared.
pub proof fn accepted_references_are_declared(config: ConfigView)
    requires
        config_problem(config) is None,
    ensures
        forall|i: int, j: int|
            0 <= i < config.layers.len() && config.layers[i].1.allowed_dependencies is Some && 0
                <= j < config.layers[i].1.allowed_dependencies->0.len() ==> has_layer(
                config.layers,
                #[trigger] config.layers[i].1.allowed_dependencies->0[j],
            ),
        forall|i: int, j: int|
            0 <= i < config.rules.len() && 0 <= j < config.rules[i].source_layers.len()
                ==> has_layer(config.layers, #[trigger] config.rules[i].source_layers[j]),
{
    lemma_no_layer_problem(config.layers, config.layers.len() as int);
    lemma_no_rule_problem(config.layers, config.rules, config.rules.len() as int);
    assert forall|i: int, j: int|
        0 <= i < config.layers.len() && config.layers[i].1.allowed_dependencies is Some && 0 <= j
            < config.layers[i].1.allowed_dependencies->0.len() implies has_layer(
        config.layers,
        #[trigger] config.layers[i].1.allowed_dependencies->0[j],
    ) by {
        assert(layer_problem(config.layers, config.layers[i].0, config.layers[i].1) is None);
        lemma_known_names(config.layers, config.layers[i].1.allowed_dependencies->0);
    }
    assert forall|i: int, j: int|
        0 <= i < config.rules.len() && 0 <= j < config.rules[i].source_layers.len() implies has_layer(
        config.layers,
        #[trigger] config.rules[i].source_layers[j],
    ) by {
        assert(rule_problem(config.layers, config.rules[i]) is None);
        lemma_known_names(config.layers, config.rules[i].source_layers);
    }
}

/// A file belongs to a layer exactly where some layer's patterns match its path, and
/// then to one whose patterns do.
pub proof fn a_layer_holds_what_it_matches(layers: Seq<CompiledLayerView>, path: Seq<char>)
    ensures
        match matching_layer(layers, path) {
            Some(name) => exists|i: int|
                0 <= i < layers.len() && (#[trigger] layers[i]).name == name && globs::matches_any(
                    layers[i].path_patterns,
                    path,
                ),
            None => forall|i: int|
                0 <= i < layers.len() ==> !globs::matches_any(
                    (#[trigger] layers[i]).path_patterns,
                    path,
                ),
        },
    decreases layers.len(),
{
    if layers.len() > 0 {
        let init = layers.drop_last();
        a_layer_holds_what_it_matches(init, path);
        match matching_layer(init, path) {
            Some(name) => {
                let i = choose|i: int|
                    0 <= i < init.len() && (#[trigger] init[i]).name == name && globs::matches_any(
                        init[i].path_patterns,
                        path,
                    );
                assert(layers[i] == init[i]);
            },
            None => {
                assert(layers[layers.len() - 1] == layers.last());
                assert forall|i: int| 0 <= i < init.len() implies !globs::matches_any(
                    (#[trigger] layers[i]).path_patterns,
                    path,
                ) by {
                    assert(layers[i] == init[i]);
                }
            },
        }
    }
}

proof fn lemma_declared_at(layers: Seq<(Seq<char>, LayerView)>, i: int)
    requires
        distinct_names(layers),
        0 <= i < layers.len(),
    ensures
        layer_position(layers, layers[i].0) == Some(i),
{
    lemma_layer_position(layers, layers[i].0);
    if let Some(j) = layer_position(layers, layers[i].0) {
        if j < i {
            assert(layers[j].0 != layers[i].0);
        } else if i < j {
            assert(layers[i].0 != layers[j].0);
        }
    }
}

/// Whether a layer called `name` is declared.
pub open spec fn is_declared(layers: Seq<(Seq<char>, LayerView)>, name: Seq<char>) -> bool {
    exists|i: int| 0 <= i < layers.len() && (#[trigger] layers[i]).0 == name
}

proof fn lemma_declared(layers: Seq<(Seq<char>, LayerView)>, name: Seq<char>)
    ensures
        has_layer(layers, name) <==> is_declared(layers, name),
{
    lemma_layer_position(layers, name);
}

/// What a layer is compiled to says what was declared of it: its patterns, what it may
/// depend on, its ports, and the layer through whose ports its imports must go, which is
/// `domain` where none is named.
pub proof fn a_compiled_layer_is_as_declared(config: ConfigView, i: int)
    requires
        distinct_names(config.layers),
        0 <= i < config.layers.len(),
    ensures
        ({
            let made = compiled(config);
            let name = config.layers[i].0;
            let layer = config.layers[i].1;
            &&& made.layers.len() == config.layers.len()
            &&& made.layers[i].name == name
            &&& made.layers[i].path_patterns == layer.path_patterns
            &&& allowed_dependencies(made, name) == layer.allowed_dependencies
            &&& port_patterns(made, name) == (if layer.port_path_patterns.len() == 0 {
                None
            } else {
                Some(layer.port_path_patterns)
            })
            &&& !layer.enforce_interface_boundary ==> interface_port_layer(made, name) is None
            &&& layer.enforce_interface_boundary && layer.interface_port_layer is Some
                ==> interface_port_layer(made, name) == layer.interface_port_layer
            &&& layer.enforce_interface_boundary && layer.interface_port_layer is None
                && is_declared(config.layers, "domain"@) ==> interface_port_layer(made, name)
                == Some("domain"@)
            &&& layer.interface_port_layer is None && !is_declared(config.layers, "domain"@)
                ==> interface_port_layer(made, name) is None
        }),
{
    layers_keep_their_names(config, config.layers[i].0);
    lemma_declared_at(config.layers, i);
    lemma_declared(config.layers, "domain"@);
}

/// Nothing is known of a layer that was not declared.
pub proof fn undeclared_layers_are_unknown(config: ConfigView, name: Seq<char>)
    requires
        !is_declared(config.layers, name),
    ensures
        allowed_dependencies(compiled(config), name) is None,
        port_patterns(compiled(config), name) is None,
        interface_port_layer(compiled(config), name) is None,
{
    lemma_declared(config.layers, name);
    layers_keep_their_names(config, name);
}

/// A file belongs to the first declared layer with a pattern that matches its path, and
/// to none where no layer has one.
pub proof fn the_first_matching_layer_holds_a_file(config: ConfigView, path: Seq<char>, i: int)
    requires
        0 <= i <= config.layers.len(),
        forall|j: int|
            0 <= j < i ==> !globs::matches_any((#[trigger] config.layers[j]).1.path_patterns, path),
        i < config.layers.len() ==> globs::matches_any(config.layers[i].1.path_patterns, path),
    ensures
        matching_layer(compiled(config).layers, path) == (if i < config.layers.len() {
            Some(config.layers[i].0)
        } else {
            None
        }),
{
    let made = compiled(config).layers;
    let before = made.take(i);
    a_layer_holds_what_it_matches(before, path);
    if let Some(name) = matching_layer(before, path) {
        let j = choose|j: int|
            0 <= j < before.len() && (#[trigger] before[j]).name == name && globs::matches_any(
                before[j].path_patterns,
                path,
            );
        assert(before[j] == made[j]);
        assert(!globs::matches_any(config.layers[j].1.path_patterns, path));
    }
    if i < config.layers.len() {
        let upto = made.take(i + 1);
        assert(upto.drop_last() == before);
        assert(upto.last() == made[i]);
        lemma_matching_layer_stays(made, path, i + 1);
    } else {
        assert(before == made);
    }
}

/// What a rule is compiled to says what was declared of it, and for each of its source
/// layers, wherever it is named, holds the patterns of that layer.
pub proof fn a_compiled_rule_is_as_declared(config: ConfigView, r: int)
    requires
        distinct_names(config.layers),
        0 <= r < config.rules.len(),
    ensures
        ({
            let made = compiled(config).rules[r];
            let rule = config.rules[r];
            &&& compiled(config).rules.len() == config.rules.len()
            &&& made.name == rule.name
            &&& made.description == rule.description
            &&& made.message == rule.message
            &&& made.remediation == rule.remediation
            &&& made.forbidden_patterns == rule.forbidden_import_patterns
            &&& made.source_patterns.len() == rule.source_layers.len()
            &&& forall|j: int, k: int|
                0 <= j < rule.source_layers.len() && 0 <= k < config.layers.len()
                    && #[trigger] rule.source_layers[j] == (#[trigger] config.layers[k]).0
                    ==> made.source_patterns[j] == config.layers[k].1.path_patterns
        }),
{
    let made = compiled(config).rules[r];
    let rule = config.rules[r];
    assert forall|j: int, k: int|
        0 <= j < rule.source_layers.len() && 0 <= k < config.layers.len()
            && #[trigger] rule.source_layers[j] == (#[trigger] config.layers[k]).0
        implies made.source_patterns[j] == config.layers[k].1.path_patterns by {
        lemma_declared_at(config.layers, k);
    }
}

/// What counts as a concrete implementation.
pub proof fn concrete_implementations_lie_in_six_places(config: ConfigView, pattern: Seq<char>)
    ensures
        compiled(config).concrete_patterns.contains(pattern) <==> pattern == "**/repositories/**"@
            || pattern == "**/*Repository*"@ || pattern == "**/infrastructure/**"@ || pattern
            == "**/data/**"@ || pattern == "**/implementations/**"@ || pattern
            == "**/adapters/**"@,
{
    let all = compiled(config).concrete_patterns;
    assert(all[0] == "**/repositories/**"@ && all[1] == "**/*Repository*"@ && all[2]
        == "**/infrastructure/**"@ && all[3] == "**/data/**"@ && all[4]
        == "**/implementations/**"@ && all[5] == "**/adapters/**"@);
}

/// A layer is sound: its patterns make sets, whatever it may depend on is declared, and
/// where it enforces a boundary, the layer that it names, or else `domain`, is declared
/// and has ports.
pub open spec fn layer_is_sound(layers: Seq<(Seq<char>, LayerView)>, layer: LayerView) -> bool {
    &&& globs::patterns_error(layer.path_patterns) is None
    &&& layer.port_path_patterns.len() > 0 ==> globs::patterns_error(layer.port_path_patterns)
        is None
    &&& layer.allowed_dependencies matches Some(allowed) ==> forall|j: int|
        0 <= j < allowed.len() ==> is_declared(layers, #[trigger] allowed[j])
    &&& layer.enforce_interface_boundary ==> exists|k: int|
        0 <= k < layers.len() && (#[trigger] layers[k]).0 == (match layer.interface_port_layer {
            Some(name) => name,
            None => "domain"@,
        }) && layers[k].1.port_path_patterns.len() > 0
}

proof fn lemma_layer_is_sound(layers: Seq<(Seq<char>, LayerView)>, name: Seq<char>, layer: LayerView)
    requires
        distinct_names(layers),
    ensures
        layer_problem(layers, name, layer) is None <==> layer_is_sound(layers, layer),
{
    if let Some(allowed) = layer.allowed_dependencies {
        lemma_all_known(layers, allowed);
    }
    if layer.enforce_interface_boundary {
        let port_layer = match layer.interface_port_layer {
            Some(named) => named,
            None => "domain"@,
        };
        lemma_layer_position(layers, port_layer);
        if layer_is_sound(layers, layer) {
            let k = choose|k: int|
                0 <= k < layers.len() && (#[trigger] layers[k]).0 == port_layer
                    && layers[k].1.port_path_patterns.len() > 0;
            lemma_declared_at(layers, k);
        }
    }
}

proof fn lemma_all_known(layers: Seq<(Seq<char>, LayerView)>, names: Seq<Seq<char>>)
    ensures
        first_unknown(layers, names) is None <==> forall|j: int|
            0 <= j < names.len() ==> is_declared(layers, #[trigger] names[j]),
    decreases names.len(),
{
    if names.len() > 0 {
        let init = names.drop_last();
        lemma_all_known(layers, init);
        lemma_declared(layers, names.last());
        assert(names[names.len() - 1] == names.last());
        assert forall|j: int| 0 <= j < init.len() implies init[j] == #[trigger] names[j] by {}
        if first_unknown(layers, names) is None {
            assert forall|j: int| 0 <= j < names.len() implies is_declared(
                layers,
                #[trigger] names[j],
            ) by {
                if j < init.len() {
                    assert(is_declared(layers, init[j]));
                }
            }
        }
        if forall|j: int| 0 <= j < names.len() ==> is_declared(layers, #[trigger] names[j]) {
            assert forall|j: int| 0 <= j < init.len() implies is_declared(
                layers,
                #[trigger] init[j],
            ) by {
                assert(init[j] == names[j]);
            }
        }
    }
}

/// A configuration is accepted exactly where every layer is sound and every rule names
/// declared layers alone and has patterns that make a set.
pub proof fn sound_configurations_are_accepted(config: ConfigView)
    requires
        distinct_names(config.layers),
        globs::patterns_error(concrete_impl_patterns()) is None,
    ensures
        config_problem(config) is None <==> {
            &&& forall|i: int|
                0 <= i < config.layers.len() ==> layer_is_sound(
                    config.layers,
                    (#[trigger] config.layers[i]).1,
                )
            &&& forall|i: int|
                0 <= i < config.rules.len() ==> globs::patterns_error(
                    (#[trigger] config.rules[i]).forbidden_import_patterns,
                ) is None && forall|j: int|
                    0 <= j < config.rules[i].source_layers.len() ==> is_declared(
                        config.layers,
                        #[trigger] config.rules[i].source_layers[j],
                    )
        },
{
    acceptance_is_of_each_part(config);
    assert forall|i: int| 0 <= i < config.layers.len() implies (layer_problem(
        config.layers,
        (#[trigger] config.layers[i]).0,
        config.layers[i].1,
    ) is None <==> layer_is_sound(config.layers, config.layers[i].1)) by {
        lemma_layer_is_sound(config.layers, config.layers[i].0, config.layers[i].1);
    }
    assert forall|i: int| 0 <= i < config.rules.len() implies (rule_problem(
        config.layers,
        #[trigger] config.rules[i],
    ) is None <==> globs::patterns_error(config.rules[i].forbidden_import_patterns) is None
        && forall|j: int|
        0 <= j < config.rules[i].source_layers.len() ==> is_declared(
            config.layers,
            #[trigger] config.rules[i].source_layers[j],
        )) by {
        lemma_all_known(config.layers, config.rules[i].source_layers);
    }
}

/// A layer put into a map is there under its name, in its old place or at the end; every
/// other layer stays where it was.
pub proof fn a_map_holds_what_was_put_in(
    layers: Seq<(Seq<char>, LayerView)>,
    name: Seq<char>,
    layer: LayerView,
)
    requires
        distinct_names(layers),
    ensures
        ({
            let after = with_layer(layers, name, layer);
            &&& distinct_names(after)
            &&& after.contains((name, layer))
            &&& after.len() == layers.len() + (if is_declared(layers, name) {
                0int
            } else {
                1int
            })
            &&& forall|i: int|
                0 <= i < layers.len() ==> (#[trigger] after[i]).0 == layers[i].0 && (layers[i].0
                    != name ==> after[i] == layers[i])
        }),
{
    let after = with_layer(layers, name, layer);
    lemma_layer_position(layers, name);
    match layer_position(layers, name) {
        Some(i) => {
            assert(after[i] == (name, layer));
            assert(distinct_names(after)) by {
                assert forall|a: int, b: int| 0 <= a < b < after.len() implies after[a].0
                    != after[b].0 by {
                    assert(after[a].0 == layers[a].0 && after[b].0 == layers[b].0);
                }
            }
        },
        None => {
            assert(after[layers.len() as int] == (name, layer));
        },
    }
}

/// Entries of which no two have the same name make the map of those entries, in order.
pub proof fn distinct_entries_make_their_map(entries: Seq<(Seq<char>, LayerView)>)
    requires
        distinct_names(entries),
    ensures
        layers_of(entries) == entries,
    decreases entries.len(),
{
    if entries.len() > 0 {
        let init = entries.drop_last();
        assert(distinct_names(init)) by {
            assert forall|a: int, b: int| 0 <= a < b < init.len() implies init[a].0 != init[b].0 by {
                assert(init[a] == entries[a] && init[b] == entries[b]);
            }
        }
        distinct_entries_make_their_map(init);
        lemma_layer_position(init, entries.last().0);
        if let Some(i) = layer_position(init, entries.last().0) {
            assert(entries[i].0 != entries[entries.len() - 1].0);
        }
        assert(init.push(entries.last()) =~= entries);
    }
}

/// The layers with an allowlist, and those that are guarded, are counted one by one.
pub proof fn limited_layers_are_counted_one_by_one(
    first: Seq<CompiledLayerView>,
    second: Seq<CompiledLayerView>,
    layer: CompiledLayerView,
)
    ensures
        allowlists(first + second) == allowlists(first) + allowlists(second),
        guarded_layers(first + second) == guarded_layers(first) + guarded_layers(second),
        allowlists(seq![layer]) == (match layer.allowed {
            Some(allowed) => seq![(layer.name, allowed)],
            None => Seq::empty(),
        }),
        guarded_layers(seq![layer]) == (if layer.port_layer is Some {
            seq![layer.name]
        } else {
            Seq::empty()
        }),
    decreases second.len(),
{
    reveal_with_fuel(allowlists, 2);
    reveal_with_fuel(guarded_layers, 2);
    let one = seq![layer];
    assert(one.drop_last() == Seq::<CompiledLayerView>::empty());
    assert(one.last() == layer);
    assert(layer.allowed matches Some(allowed) ==> allowlists(one) =~= seq![
        (layer.name, allowed),
    ]);
    assert(layer.port_layer is Some ==> guarded_layers(one) =~= seq![layer.name]);
    if second.len() == 0 {
        assert(first + second == first);
        assert(allowlists(first) + allowlists(second) =~= allowlists(first));
        assert(guarded_layers(first) + guarded_layers(second) =~= guarded_layers(first));
    } else {
        limited_layers_are_counted_one_by_one(first, second.drop_last(), layer);
        assert((first + second).drop_last() == first + second.drop_last());
        assert((first + second).last() == second.last());
        assert(allowlists(first + second) =~= allowlists(first) + allowlists(second));
        assert(guarded_layers(first + second) =~= guarded_layers(first) + guarded_layers(second));
    }
}

/// The `i`th declared layer is the first with a pattern that matches `path`.
pub open spec fn lies_in(config: ConfigView, path: Seq<char>, i: int) -> bool {
    &&& 0 <= i < config.layers.len()
    &&& globs::matches_any(config.layers[i].1.path_patterns, path)
    &&& forall|j: int|
        0 <= j < i ==> !globs::matches_any((#[trigger] config.layers[j]).1.path_patterns, path)
}

/// A path is in the layer called `name` exactly where the first declared layer with a
/// pattern that matches it is called so.
pub proof fn a_path_lies_in_its_first_layer(config: ConfigView, path: Seq<char>, name: Seq<char>)
    ensures
        matching_layer(compiled(config).layers, path) == Some(name) <==> exists|i: int| #[trigger]
            lies_in(config, path, i) && config.layers[i].0 == name,
{
    lemma_first_match(config, path, config.layers.len() as int);
    if exists|i: int| #[trigger] lies_in(config, path, i) {
        let i = choose|i: int| #[trigger] lies_in(config, path, i);
        the_first_matching_layer_holds_a_file(config, path, i);
        if matching_layer(compiled(config).layers, path) == Some(name) {
            assert(lies_in(config, path, i) && config.layers[i].0 == name);
        }
        if exists|j: int| #[trigger] lies_in(config, path, j) && config.layers[j].0 == name {
            let j = choose|j: int| #[trigger]
                lies_in(config, path, j) && config.layers[j].0 == name;
            the_first_matching_layer_holds_a_file(config, path, j);
        }
    } else {
        the_first_matching_layer_holds_a_file(config, path, config.layers.len() as int);
    }
}

proof fn lemma_first_match(config: ConfigView, path: Seq<char>, n: int)
    requires
        0 <= n <= config.layers.len(),
    ensures
        (exists|i: int| #[trigger] lies_in(config, path, i)) || forall|j: int|
            0 <= j < n ==> !globs::matches_any((#[trigger] config.layers[j]).1.path_patterns, path),
    decreases n,
{
    if n > 0 {
        lemma_first_match(config, path, n - 1);
        if !(exists|i: int| #[trigger] lies_in(config, path, i)) {
            if globs::matches_any(config.layers[n - 1].1.path_patterns, path) {
                assert(lies_in(config, path, n - 1));
            }
        }
    }
}

/// What is told of the layers that limit their dependencies is of the declared ones.
pub proof fn declared_allowlists_are_counted(config: ConfigView)
    ensures
        allowlists(compiled(config).layers).len() == config.layers.filter(
            |entry: (Seq<char>, LayerView)| entry.1.allowed_dependencies is Some,
        ).len(),
{
    lemma_allowlists_counted(config, config.layers.len() as int);
    assert(compiled(config).layers.take(config.layers.len() as int) == compiled(config).layers);
    assert(config.layers.take(config.layers.len() as int) == config.layers);
}

proof fn lemma_allowlists_counted(config: ConfigView, n: int)
    requires
        0 <= n <= config.layers.len(),
    ensures
        allowlists(compiled(config).layers.take(n)).len() == config.layers.take(n).filter(
            |entry: (Seq<char>, LayerView)| entry.1.allowed_dependencies is Some,
        ).len(),
    decreases n,
{
    reveal(Seq::filter);
    if n > 0 {
        lemma_allowlists_counted(config, n - 1);
        assert(compiled(config).layers.take(n).drop_last() == compiled(config).layers.take(n - 1));
        assert(config.layers.take(n).drop_last() == config.layers.take(n - 1));
        assert(compiled(config).layers.take(n).last().allowed == config.layers.take(
            n,
        ).last().1.allowed_dependencies);
    }
}

/// Each source layer that a rule of an accepted configuration names is declared.
pub proof fn accepted_sources_are_declared(config: ConfigView, r: int, j: int)
    requires
        config_problem(config) is None,
        0 <= r < config.rules.len(),
        0 <= j < config.rules[r].source_layers.len(),
    ensures
        is_declared(config.layers, config.rules[r].source_layers[j]),
{
    acceptance_is_of_each_part(config);
    assert(rule_problem(config.layers, config.rules[r]) is None);
    lemma_all_known(config.layers, config.rules[r].source_layers);
}

proof fn lemma_first_unknown_at(layers: Seq<(Seq<char>, LayerView)>, names: Seq<Seq<char>>, k: int)
    requires
        0 <= k < names.len(),
        !is_declared(layers, names[k]),
        forall|j: int| 0 <= j < k ==> is_declared(layers, #[trigger] names[j]),
    ensures
        first_unknown(layers, names) == Some(names[k]),
    decreases names.len(),
{
    let init = names.drop_last();
    if k < init.len() {
        assert forall|j: int| 0 <= j < k implies is_declared(layers, #[trigger] init[j]) by {
            assert(init[j] == names[j]);
        }
        lemma_first_unknown_at(layers, init, k);
    } else {
        lemma_all_known(layers, init);
        assert forall|j: int| 0 <= j < init.len() implies is_declared(layers, #[trigger] init[j]) by {
            assert(init[j] == names[j]);
        }
        lemma_declared(layers, names[k]);
    }
}

/// The first layer that is not sound is the one whose problem is told, whatever is wrong
/// with later layers and with the rules.
pub proof fn the_first_unsound_layer_is_told(config: ConfigView, k: int)
    requires
        distinct_names(config.layers),
        0 <= k < config.layers.len(),
        !layer_is_sound(config.layers, config.layers[k].1),
        forall|i: int|
            0 <= i < k ==> layer_is_sound(config.layers, (#[trigger] config.layers[i]).1),
    ensures
        config_problem(config) is Some,
        config_problem(config) == layer_problem(
            config.layers,
            config.layers[k].0,
            config.layers[k].1,
        ),
{
    lemma_first_layer_problem_at(config.layers, k, config.layers.len() as int);
}

proof fn lemma_first_layer_problem_at(layers: Seq<(Seq<char>, LayerView)>, k: int, n: int)
    requires
        distinct_names(layers),
        0 <= k < n <= layers.len(),
        !layer_is_sound(layers, layers[k].1),
        forall|i: int| 0 <= i < k ==> layer_is_sound(layers, (#[trigger] layers[i]).1),
    ensures
        first_layer_problem(layers, n) is Some,
        first_layer_problem(layers, n) == layer_problem(layers, layers[k].0, layers[k].1),
    decreases n,
{
    if k < n - 1 {
        lemma_first_layer_problem_at(layers, k, n - 1);
    } else {
        lemma_sound_so_far(layers, k);
        lemma_layer_is_sound(layers, layers[k].0, layers[k].1);
    }
}

proof fn lemma_sound_so_far(layers: Seq<(Seq<char>, LayerView)>, n: int)
    requires
        distinct_names(layers),
        0 <= n <= layers.len(),
        forall|i: int| 0 <= i < n ==> layer_is_sound(layers, (#[trigger] layers[i]).1),
    ensures
        first_layer_problem(layers, n) is None,
    decreases n,
{
    if n > 0 {
        lemma_sound_so_far(layers, n - 1);
        assert(layer_is_sound(layers, layers[n - 1].1));
        lemma_layer_is_sound(layers, layers[n - 1].0, layers[n - 1].1);
    }
}

/// What is told of a layer names what is wrong with it: the error of its patterns, the
/// first layer on its allowlist that is not declared, the error of its port patterns, or
/// the layer whose ports are missing, in that order.
pub proof fn a_layer_problem_names_its_cause(
    layers: Seq<(Seq<char>, LayerView)>,
    name: Seq<char>,
    layer: LayerView,
    k: int,
)
    requires
        distinct_names(layers),
    ensures
        globs::patterns_error(layer.path_patterns) matches Some(error) ==> layer_problem(
            layers,
            name,
            layer,
        ) is Some && text::occurs(layer_problem(layers, name, layer)->0, name) && text::occurs(
            layer_problem(layers, name, layer)->0,
            error,
        ),
        globs::patterns_error(layer.path_patterns) is None && layer.allowed_dependencies is Some
            && 0 <= k < layer.allowed_dependencies->0.len() && !is_declared(
            layers,
            layer.allowed_dependencies->0[k],
        ) && (forall|j: int|
            0 <= j < k ==> is_declared(layers, #[trigger] layer.allowed_dependencies->0[j]))
            ==> layer_problem(layers, name, layer) is Some && text::occurs(
            layer_problem(layers, name, layer)->0,
            name,
        ) && text::occurs(
            layer_problem(layers, name, layer)->0,
            layer.allowed_dependencies->0[k],
        ),
        globs::patterns_error(layer.path_patterns) is None && layer.allowed_dependencies is None
            && layer.port_path_patterns.len() > 0 && globs::patterns_error(
            layer.port_path_patterns,
        ) is Some ==> layer_problem(layers, name, layer) is Some && text::occurs(
            layer_problem(layers, name, layer)->0,
            name,
        ) && text::occurs(
            layer_problem(layers, name, layer)->0,
            globs::patterns_error(layer.port_path_patterns)->0,
        ),
        globs::patterns_error(layer.path_patterns) is None && layer.allowed_dependencies is None
            && layer.port_path_patterns.len() == 0 && layer.enforce_interface_boundary && (
        layer.interface_port_layer matches Some(port_layer) && !is_declared(layers, port_layer))
            ==> layer_problem(layers, name, layer) is Some && text::occurs(
            layer_problem(layers, name, layer)->0,
            name,
        ) && text::occurs(
            layer_problem(layers, name, layer)->0,
            layer.interface_port_layer->0,
        ),
{
    text::a_sum_holds_its_parts();
    if let Some(allowed) = layer.allowed_dependencies {
        if 0 <= k < allowed.len() && !is_declared(layers, allowed[k]) && (forall|j: int|
            0 <= j < k ==> is_declared(layers, #[trigger] allowed[j])) {
            lemma_first_unknown_at(layers, allowed, k);
        }
    }
    if let Some(port_layer) = layer.interface_port_layer {
        lemma_declared(layers, port_layer);
    }
}

/// Where every layer is sound, what is told is the problem of the first rule that has one:
/// it names the rule, and the first of its source layers that is not declared or else the
/// error of its patterns.
pub proof fn the_first_faulty_rule_is_told(config: ConfigView, r: int, k: int)
    requires
        distinct_names(config.layers),
        forall|i: int|
            0 <= i < config.layers.len() ==> layer_is_sound(
                config.layers,
                (#[trigger] config.layers[i]).1,
            ),
        globs::patterns_error(concrete_impl_patterns()) is None,
        0 <= r < config.rules.len(),
        forall|i: int|
            0 <= i < r ==> globs::patterns_error(
                (#[trigger] config.rules[i]).forbidden_import_patterns,
            ) is None && forall|j: int|
                0 <= j < config.rules[i].source_layers.len() ==> is_declared(
                    config.layers,
                    #[trigger] config.rules[i].source_layers[j],
                ),
        forall|j: int|
            0 <= j < k ==> is_declared(
                config.layers,
                #[trigger] config.rules[r].source_layers[j],
            ),
        0 <= k <= config.rules[r].source_layers.len(),
        k < config.rules[r].source_layers.len() ==> !is_declared(
            config.layers,
            config.rules[r].source_layers[k],
        ),
        k == config.rules[r].source_layers.len() ==> globs::patterns_error(
            config.rules[r].forbidden_import_patterns,
        ) is Some,
    ensures
        config_problem(config) is Some,
        text::occurs(config_problem(config)->0, config.rules[r].name),
        k < config.rules[r].source_layers.len() ==> text::occurs(
            config_problem(config)->0,
            config.rules[r].source_layers[k],
        ),
        k == config.rules[r].source_layers.len() ==> text::occurs(
            config_problem(config)->0,
            globs::patterns_error(config.rules[r].forbidden_import_patterns)->0,
        ),
{
    text::a_sum_holds_its_parts();
    let rule = config.rules[r];
    lemma_sound_so_far(config.layers, config.layers.len() as int);
    if k < rule.source_layers.len() {
        lemma_first_unknown_at(config.layers, rule.source_layers, k);
    } else {
        lemma_all_known(config.layers, rule.source_layers);
    }
    assert(rule_problem(config.layers, rule) is Some);
    lemma_first_rule_problem_at(config, r, config.rules.len() as int);
}

proof fn lemma_first_rule_problem_at(config: ConfigView, r: int, n: int)
    requires
        0 <= r < n <= config.rules.len(),
        rule_problem(config.layers, config.rules[r]) is Some,
        forall|i: int|
            0 <= i < r ==> globs::patterns_error(
                (#[trigger] config.rules[i]).forbidden_import_patterns,
            ) is None && forall|j: int|
                0 <= j < config.rules[i].source_layers.len() ==> is_declared(
                    config.layers,
                    #[trigger] config.rules[i].source_layers[j],
                ),
    ensures
        first_rule_problem(config.layers, config.rules, n) == rule_problem(
            config.layers,
            config.rules[r],
        ),
    decreases n,
{
    if r < n - 1 {
        lemma_first_rule_problem_at(config, r, n - 1);
    } else {
        lemma_rules_fine_so_far(config, r);
    }
}

proof fn lemma_rules_fine_so_far(config: ConfigView, n: int)
    requires
        0 <= n <= config.rules.len(),
        forall|i: int|
            0 <= i < n ==> globs::patterns_error(
                (#[trigger] config.rules[i]).forbidden_import_patterns,
            ) is None && forall|j: int|
                0 <= j < config.rules[i].source_layers.len() ==> is_declared(
                    config.layers,
                    #[trigger] config.rules[i].source_layers[j],
                ),
    ensures
        first_rule_problem(config.layers, config.rules, n) is None,
    decreases n,
{
    if n > 0 {
        lemma_rules_fine_so_far(config, n - 1);
        assert(globs::patterns_error(config.rules[n - 1].forbidden_import_patterns) is None);
        lemma_all_known(config.layers, config.rules[n - 1].source_layers);
    }
}

}

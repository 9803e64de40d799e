//! The rule engine: which imports of a file break the declared architecture.

use std::sync::Arc;

use globset::GlobSet;
use vstd::prelude::*;
use vstd::string::StringExecFns;

use crate::ast_engine::{FileLayout, FileView, ImportRef, ImportView, StructuralLayout};
use crate::config;
use crate::config::{
    CompiledArchitectureConfig, CompiledConfigView, CompiledRuleView, ConfigView, LayerView,
    RuleMatchView,
};
use crate::error::{quoted, AddResult};
use crate::globs;
use crate::globs::glob_set_matches;
use crate::path;
pub use crate::path::{normalize_path, resolve_import_path};
use crate::text;
use crate::text::{contains_text, copy_strings, join, same_text};

verus! {

pub const LAYER_ALLOWLIST_RULE: &'static str = "layer-allowlist";

pub const INTERFACE_BYPASS_RULE: &'static str = "interface-bypass-violation";

/// Relative severity used for IDE presentation and filtering.
#[derive(Debug, Clone, Copy, PartialEq, Eq, Structural)]
pub enum ViolationSeverity {
    Normal,
    High,
}

/// A single architectural rule violation.
#[derive(Debug, Clone, PartialEq, Eq)]
pub struct Violation {
    pub rule: String,
    pub file: String,
    pub line: usize,
    pub column: usize,
    pub import_path: String,
    pub message: String,
    pub remediation: Vec<String>,
    pub severity: ViolationSeverity,
}

/// Outcome of validating a structural layout.
#[derive(Debug, Clone)]
pub struct ValidationReport {
    pub violations: Vec<Violation>,
    pub files_checked: usize,
    pub rules_evaluated: usize,
    pub allowlist_layers_evaluated: usize,
}

#[verifier::ext_equal]
pub struct ViolationView {
    pub rule: Seq<char>,
    pub file: Seq<char>,
    pub line: nat,
    pub column: nat,
    pub import_path: Seq<char>,
    pub message: Seq<char>,
    pub remediation: Seq<Seq<char>>,
    pub severity: ViolationSeverity,
}

#[verifier::ext_equal]
pub struct ReportView {
    pub violations: Seq<ViolationView>,
    pub files_checked: nat,
    pub rules_evaluated: nat,
    pub allowlist_layers_evaluated: nat,
}

impl DeepView for Violation {
    type V = ViolationView;

    open spec fn deep_view(&self) -> ViolationView {
        ViolationView {
            rule: self.rule@,
            file: self.file@,
            line: self.line as nat,
            column: self.column as nat,
            import_path: self.import_path@,
            message: self.message@,
            remediation: self.remediation.deep_view(),
            severity: self.severity,
        }
    }
}

impl View for ValidationReport {
    type V = ReportView;

    open spec fn view(&self) -> ReportView {
        ReportView {
            violations: self.violations.deep_view(),
            files_checked: self.files_checked as nat,
            rules_evaluated: self.rules_evaluated as nat,
            allowlist_layers_evaluated: self.allowlist_layers_evaluated as nat,
        }
    }
}

impl Violation {
    pub fn is_high_severity(&self) -> (r: bool)
        ensures
            r == (self.severity == ViolationSeverity::High),
    {
        self.severity == ViolationSeverity::High
    }
}

impl Default for ValidationReport {
    fn default() -> (r: ValidationReport)
        ensures
            r@ == (ReportView {
                violations: Seq::empty(),
                files_checked: 0,
                rules_evaluated: 0,
                allowlist_layers_evaluated: 0,
            }),
    {
        let r = ValidationReport {
            violations: Vec::new(),
            files_checked: 0,
            rules_evaluated: 0,
            allowlist_layers_evaluated: 0,
        };
        assert(r@.violations =~= Seq::empty());
        r
    }
}

/// What a check says of each import in turn.
pub open spec fn hits(
    imports: Seq<ImportView>,
    check: spec_fn(ImportView) -> Option<ViolationView>,
) -> Seq<ViolationView>
    decreases imports.len(),
{
    if imports.len() == 0 {
        Seq::empty()
    } else {
        match check(imports.last()) {
            Some(hit) => hits(imports.drop_last(), check).push(hit),
            None => hits(imports.drop_last(), check),
        }
    }
}

/// A rule applies to a file that one of its source layers matches.
pub open spec fn rule_applies(rule: RuleMatchView, path: Seq<char>) -> bool {
    exists|i: int|
        0 <= i < rule.source_patterns.len() && globs::matches_any(
            #[trigger] rule.source_patterns[i],
            path,
        )
}

/// The violation of `rule` that an import is, if it is one.
pub open spec fn rule_hit(rule: RuleMatchView, file: FileView, import: ImportView) -> Option<
    ViolationView,
> {
    if globs::matches_any(rule.forbidden_patterns, import.path) {
        Some(
            ViolationView {
                rule: rule.name,
                file: file.file_path,
                line: import.line,
                column: import.column,
                import_path: import.path,
                message: rule.message,
                remediation: rule.remediation,
                severity: ViolationSeverity::Normal,
            },
        )
    } else {
        None
    }
}

pub open spec fn rule_check(rule: RuleMatchView, file: FileView) -> spec_fn(ImportView) -> Option<
    ViolationView,
> {
    |import: ImportView| rule_hit(rule, file, import)
}

/// The violations of one rule in a file.
pub open spec fn rule_violations(rule: RuleMatchView, file: FileView) -> Seq<ViolationView> {
    if rule_applies(rule, path::normalized(file.file_path)) {
        hits(file.imports, rule_check(rule, file))
    } else {
        Seq::empty()
    }
}

/// The violations of the rules in a file, rule after rule.
pub open spec fn all_rule_violations(rules: Seq<RuleMatchView>, file: FileView) -> Seq<
    ViolationView,
>
    decreases rules.len(),
{
    if rules.len() == 0 {
        Seq::empty()
    } else {
        all_rule_violations(rules.drop_last(), file) + rule_violations(rules.last(), file)
    }
}

/// The layer to which an import leads, where it can be resolved.
pub open spec fn import_layer(
    config: CompiledConfigView,
    file_path: Seq<char>,
    import_path: Seq<char>,
) -> Option<Seq<char>> {
    match path::resolved_import(file_path, import_path) {
        Some(target) => config::matching_layer(config.layers, target),
        None => None,
    }
}

pub open spec fn allowlist_message(
    layer: Seq<char>,
    allowed: Seq<Seq<char>>,
    target: Seq<char>,
) -> Seq<char> {
    "Layer `"@ + layer + "` may only depend on ["@ + text::joined(allowed, ", "@)
        + "], but import resolves to layer `"@ + target + "`."@
}

pub open spec fn allowlist_remediation(layer: Seq<char>, target: Seq<char>) -> Seq<Seq<char>> {
    seq![
        "Remove the dependency on `"@ + target + "` or add it to `"@ + layer
            + ".allowed_dependencies`."@,
        "Move shared contracts to an allowed layer."@,
    ]
}

/// The violation that an import is of its layer's allowlist, if it is one: it leads
/// to another layer that the list does not name.
pub open spec fn allowlist_hit(
    config: CompiledConfigView,
    file: FileView,
    layer: Seq<char>,
    allowed: Seq<Seq<char>>,
    import: ImportView,
) -> Option<ViolationView> {
    match import_layer(config, file.file_path, import.path) {
        Some(target) => if target == layer || allowed.contains(target) {
            None
        } else {
            Some(
                ViolationView {
                    rule: LAYER_ALLOWLIST_RULE@,
                    file: file.file_path,
                    line: import.line,
                    column: import.column,
                    import_path: import.path,
                    message: allowlist_message(layer, allowed, target),
                    remediation: allowlist_remediation(layer, target),
                    severity: ViolationSeverity::Normal,
                },
            )
        },
        None => None,
    }
}

pub open spec fn allowlist_check(
    config: CompiledConfigView,
    file: FileView,
    layer: Seq<char>,
    allowed: Seq<Seq<char>>,
) -> spec_fn(ImportView) -> Option<ViolationView> {
    |import: ImportView| allowlist_hit(config, file, layer, allowed, import)
}

/// The violations of its layer's allowlist in a file.
pub open spec fn allowlist_violations(
    config: CompiledConfigView,
    file: FileView,
    layer: Seq<char>,
) -> Seq<ViolationView> {
    match config::allowed_dependencies(config, layer) {
        Some(allowed) => hits(file.imports, allowlist_check(config, file, layer, allowed)),
        None => Seq::empty(),
    }
}

/// What an import names: the module it resolves to, or its own text.
pub open spec fn import_target(file_path: Seq<char>, import_path: Seq<char>) -> Seq<char> {
    match path::resolved_import(file_path, import_path) {
        Some(target) => target,
        None => import_path,
    }
}

/// Whether an import, as written or as resolved, matches one of `patterns`.
pub open spec fn import_matches(
    patterns: Seq<Seq<char>>,
    file_path: Seq<char>,
    import_path: Seq<char>,
) -> bool {
    globs::matches_any(patterns, import_target(file_path, import_path)) || globs::matches_any(
        patterns,
        import_path,
    )
}

/// Whether an import of a file in `layer` goes past the ports: it matches no port,
/// does not stay in the layer, and leads to the infrastructure or to a concrete
/// implementation.
pub open spec fn bypasses_ports(
    config: CompiledConfigView,
    file_path: Seq<char>,
    layer: Seq<char>,
    ports: Seq<Seq<char>>,
    import_path: Seq<char>,
) -> bool {
    let target_layer = config::matching_layer(
        config.layers,
        import_target(file_path, import_path),
    );
    &&& !import_matches(ports, file_path, import_path)
    &&& target_layer != Some(layer)
    &&& (target_layer == Some("infrastructure"@) || import_matches(
        config.concrete_patterns,
        file_path,
        import_path,
    ))
}

pub open spec fn boundary_message(
    layer: Seq<char>,
    port_layer: Seq<char>,
    import_path: Seq<char>,
) -> Seq<char> {
    "Layer `"@ + layer + "` must depend on `"@ + port_layer
        + "` ports/interfaces, not concrete implementations (`"@ + import_path + "`)."@
}

pub open spec fn boundary_remediation(port_layer: Seq<char>) -> Seq<Seq<char>> {
    seq![
        "Import from `"@ + port_layer
            + "` port modules (e.g. `domain/ports/*` or `domain/interfaces/*`)."@,
        "Inject concrete implementations at the composition root."@,
        "Replace direct Repository/Adapter imports with their interface definitions."@,
    ]
}

/// The violation that an import is of its layer's interface boundary, if it is one.
pub open spec fn boundary_hit(
    config: CompiledConfigView,
    file: FileView,
    layer: Seq<char>,
    port_layer: Seq<char>,
    ports: Seq<Seq<char>>,
    import: ImportView,
) -> Option<ViolationView> {
    if bypasses_ports(config, file.file_path, layer, ports, import.path) {
        Some(
            ViolationView {
                rule: INTERFACE_BYPASS_RULE@,
                file: file.file_path,
                line: import.line,
                column: import.column,
                import_path: import.path,
                message: boundary_message(layer, port_layer, import.path),
                remediation: boundary_remediation(port_layer),
                severity: ViolationSeverity::High,
            },
        )
    } else {
        None
    }
}

pub open spec fn boundary_check(
    config: CompiledConfigView,
    file: FileView,
    layer: Seq<char>,
    port_layer: Seq<char>,
    ports: Seq<Seq<char>>,
) -> spec_fn(ImportView) -> Option<ViolationView> {
    |import: ImportView| boundary_hit(config, file, layer, port_layer, ports, import)
}

/// The violations of its layer's interface boundary in a file.
pub open spec fn boundary_violations(
    config: CompiledConfigView,
    file: FileView,
    layer: Seq<char>,
) -> Seq<ViolationView> {
    match config::interface_port_layer(config, layer) {
        Some(port_layer) => match config::port_patterns(config, port_layer) {
            Some(ports) => hits(
                file.imports,
                boundary_check(config, file, layer, port_layer, ports),
            ),
            None => Seq::empty(),
        },
        None => Seq::empty(),
    }
}

/// The violations in a file: of the rules, then, where the file belongs to a layer,
/// of its allowlist and of its interface boundary.
pub open spec fn file_violations(config: CompiledConfigView, file: FileView) -> Seq<ViolationView> {
    all_rule_violations(config.rules, file) + match config::matching_layer(
        config.layers,
        path::normalized(file.file_path),
    ) {
        Some(layer) => allowlist_violations(config, file, layer) + boundary_violations(
            config,
            file,
            layer,
        ),
        None => Seq::empty(),
    }
}

/// The violations in the files, file after file.
pub open spec fn layout_violations(config: CompiledConfigView, files: Seq<FileView>) -> Seq<
    ViolationView,
>
    decreases files.len(),
{
    if files.len() == 0 {
        Seq::empty()
    } else {
        layout_violations(config, files.drop_last()) + file_violations(config, files.last())
    }
}

/// The report on `files`.
pub open spec fn validated(config: CompiledConfigView, files: Seq<FileView>) -> ReportView {
    ReportView {
        violations: layout_violations(config, files),
        files_checked: files.len(),
        rules_evaluated: config.rules.len(),
        allowlist_layers_evaluated: config::allowlists(config.layers).len(),
    }
}

impl ImportRef {
    /// A violation at this import.
    fn violation(
        &self,
        rule: &str,
        file_path: &str,
        message: String,
        remediation: Vec<String>,
        severity: ViolationSeverity,
    ) -> (r: Violation)
        ensures
            r.deep_view() == (ViolationView {
                rule: rule@,
                file: file_path@,
                line: self.line as nat,
                column: self.column as nat,
                import_path: self.path@,
                message: message@,
                remediation: remediation.deep_view(),
                severity,
            }),
    {
        Violation {
            rule: rule.to_owned(),
            file: file_path.to_owned(),
            line: self.line,
            column: self.column,
            import_path: self.path.clone(),
            message,
            remediation,
            severity,
        }
    }
}

fn rule_applies_to_file(rule: &CompiledRuleView<'_>, normalized_path: &str) -> (r: bool)
    ensures
        r == rule_applies(rule.deep_view(), normalized_path@),
{
    let mut i: usize = 0;
    let ghost sources = rule.deep_view().source_patterns;
    while i < rule.source_layer_matchers.len()
        invariant
            i <= rule.source_layer_matchers@.len(),
            sources == rule.deep_view().source_patterns,
            forall|j: int|
                0 <= j < i ==> !globs::matches_any(#[trigger] sources[j], normalized_path@),
        decreases rule.source_layer_matchers@.len() - i,
    {
        let matcher = &rule.source_layer_matchers[i];
        assert(sources[i as int] == globs::set_patterns(*matcher));
        if glob_set_matches(matcher, normalized_path) {
            return true;
        }
        i += 1;
    }
    false
}

proof fn lemma_next_hit(
    imports: Seq<ImportView>,
    check: spec_fn(ImportView) -> Option<ViolationView>,
    i: int,
)
    requires
        0 <= i < imports.len(),
    ensures
        hits(imports.take(i + 1), check) == (match check(imports[i]) {
            Some(hit) => hits(imports.take(i), check).push(hit),
            None => hits(imports.take(i), check),
        }),
{
    assert(imports.take(i + 1).drop_last() == imports.take(i));
}

fn push_violation(violations: &mut Vec<Violation>, violation: Violation)
    ensures
        final(violations).deep_view() == old(violations).deep_view().push(violation.deep_view()),
{
    violations.push(violation);
    assert(violations.deep_view() =~= old(violations).deep_view().push(violation.deep_view()));
}

fn append_violations(violations: &mut Vec<Violation>, more: Vec<Violation>)
    ensures
        final(violations).deep_view() == old(violations).deep_view() + more.deep_view(),
{
    let mut rest = more;
    violations.append(&mut rest);
    assert(violations.deep_view() =~= old(violations).deep_view() + more.deep_view());
}

/// The violations of `rule` in `file`.
fn check_rule(rule: &CompiledRuleView<'_>, normalized_path: &str, file: &FileLayout) -> (r: Vec<
    Violation,
>)
    requires
        normalized_path@ == path::normalized(file.file_path@),
    ensures
        r.deep_view() == rule_violations(rule.deep_view(), file.deep_view()),
{
    let mut violations: Vec<Violation> = Vec::new();
    if !rule_applies_to_file(rule, normalized_path) {
        assert(violations.deep_view() =~= Seq::<ViolationView>::empty());
        return violations;
    }
    let ghost imports = file.imports.deep_view();
    let ghost check = rule_check(rule.deep_view(), file.deep_view());
    let mut i: usize = 0;
    assert(violations.deep_view() =~= hits(imports.take(0), check));
    while i < file.imports.len()
        invariant
            i <= file.imports@.len(),
            imports == file.imports.deep_view(),
            check == rule_check(rule.deep_view(), file.deep_view()),
            violations.deep_view() == hits(imports.take(i as int), check),
        decreases file.imports@.len() - i,
    {
        let import = &file.imports[i];
        proof {
            lemma_next_hit(imports, check, i as int);
            assert(imports[i as int] == import.deep_view());
        }
        if glob_set_matches(rule.forbidden_import_matchers, import.path.as_str()) {
            push_violation(
                &mut violations,
                import.violation(
                    rule.name,
                    file.file_path.as_str(),
                    rule.message.to_owned(),
                    copy_strings(rule.remediation),
                    ViolationSeverity::Normal,
                ),
            );
        }
        i += 1;
    }
    assert(imports.take(i as int) == imports);
    violations
}

/// Compares extracted layout facts against declarative architecture rules.
pub struct Validator {
    config: Arc<CompiledArchitectureConfig>,
}

impl View for Validator {
    type V = CompiledConfigView;

    open spec fn view(&self) -> CompiledConfigView {
        self.configuration()@
    }
}

/// `Arc`'s `clone`: one more pointer to the same value.
#[verifier::external_body]
fn share<T>(pointer: &Arc<T>) -> (r: Arc<T>)
    ensures
        r == *pointer,
{
    Arc::clone(pointer)
}

impl Validator {
    /// The configuration that the validator holds.
    pub closed spec fn configuration(&self) -> CompiledArchitectureConfig {
        *self.config
    }

    pub fn new(config: CompiledArchitectureConfig) -> (r: Validator)
        ensures
            r.configuration() == config,
    {
        Validator { config: Arc::new(config) }
    }

    pub fn with_shared(config: Arc<CompiledArchitectureConfig>) -> (r: Validator)
        ensures
            r.configuration() == *config,
    {
        Validator { config }
    }

    pub fn config(&self) -> (r: &CompiledArchitectureConfig)
        ensures
            *r == self.configuration(),
    {
        &self.config
    }

    pub fn shared_config(&self) -> (r: Arc<CompiledArchitectureConfig>)
        ensures
            *r == self.configuration(),
    {
        share(&self.config)
    }

    /// The violations of the allowlist of `source_layer` in `file`.
    fn check_allowlist(&self, source_layer: &str, file: &FileLayout) -> (r: Vec<Violation>)
        ensures
            r.deep_view() == allowlist_violations(self@, file.deep_view(), source_layer@),
    {
        let mut violations: Vec<Violation> = Vec::new();
        let allowed: &[String] = match self.config.allowed_dependencies_for_layer(source_layer) {
            Some(allowed) => allowed,
            None => {
                assert(violations.deep_view() =~= Seq::<ViolationView>::empty());
                return violations;
            },
        };
        let ghost imports = file.imports.deep_view();
        let ghost check = allowlist_check(
            self@,
            file.deep_view(),
            source_layer@,
            allowed.deep_view(),
        );
        let mut i: usize = 0;
        assert(violations.deep_view() =~= hits(imports.take(0), check));
        while i < file.imports.len()
            invariant
                i <= file.imports@.len(),
                imports == file.imports.deep_view(),
                check == allowlist_check(
                    self@,
                    file.deep_view(),
                    source_layer@,
                    allowed.deep_view(),
                ),
                violations.deep_view() == hits(imports.take(i as int), check),
            decreases file.imports@.len() - i,
        {
            let import = &file.imports[i];
            proof {
                lemma_next_hit(imports, check, i as int);
                assert(imports[i as int] == import.deep_view());
            }
            if let Some(resolved) = resolve_import_path(
                file.file_path.as_str(),
                import.path.as_str(),
            ) {
                if let Some(target_layer) = self.config.layer_for_path(resolved.as_str()) {
                    if !same_text(target_layer, source_layer) && !contains_text(
                        allowed,
                        target_layer,
                    ) {
                        push_violation(
                            &mut violations,
                            import.violation(
                                LAYER_ALLOWLIST_RULE,
                                file.file_path.as_str(),
                                allowlist_message_text(source_layer, allowed, target_layer),
                                allowlist_steps(source_layer, target_layer),
                                ViolationSeverity::Normal,
                            ),
                        );
                    }
                }
            }
            i += 1;
        }
        assert(imports.take(i as int) == imports);
        violations
    }

    /// The violations of the interface boundary of `source_layer` in `file`.
    fn check_interface_boundary(&self, source_layer: &str, file: &FileLayout) -> (r: Vec<Violation>)
        ensures
            r.deep_view() == boundary_violations(self@, file.deep_view(), source_layer@),
    {
        let mut violations: Vec<Violation> = Vec::new();
        assert(violations.deep_view() =~= Seq::<ViolationView>::empty());
        let port_layer: &str = match self.config.interface_port_layer_for(source_layer) {
            Some(port_layer) => port_layer,
            None => return violations,
        };
        let port_matchers: &GlobSet = match self.config.port_matchers_for_layer(port_layer) {
            Some(matchers) => matchers,
            None => return violations,
        };
        let concrete_matchers = self.config.concrete_impl_matchers();
        let ghost imports = file.imports.deep_view();
        let ghost ports = globs::set_patterns(*port_matchers);
        let ghost check = boundary_check(
            self@,
            file.deep_view(),
            source_layer@,
            port_layer@,
            ports,
        );
        let mut i: usize = 0;
        assert(violations.deep_view() =~= hits(imports.take(0), check));
        while i < file.imports.len()
            invariant
                i <= file.imports@.len(),
                imports == file.imports.deep_view(),
                ports == globs::set_patterns(*port_matchers),
                globs::set_patterns(*concrete_matchers) == self@.concrete_patterns,
                check == boundary_check(
                    self@,
                    file.deep_view(),
                    source_layer@,
                    port_layer@,
                    ports,
                ),
                violations.deep_view() == hits(imports.take(i as int), check),
            decreases file.imports@.len() - i,
        {
            let import = &file.imports[i];
            proof {
                lemma_next_hit(imports, check, i as int);
                assert(imports[i as int] == import.deep_view());
            }
            if self.bypasses(
                source_layer,
                port_matchers,
                concrete_matchers,
                file.file_path.as_str(),
                import.path.as_str(),
            ) {
                push_violation(
                    &mut violations,
                    import.violation(
                        INTERFACE_BYPASS_RULE,
                        file.file_path.as_str(),
                        boundary_message_text(source_layer, port_layer, import.path.as_str()),
                        boundary_steps(port_layer),
                        ViolationSeverity::High,
                    ),
                );
            }
            i += 1;
        }
        assert(imports.take(i as int) == imports);
        violations
    }

    fn bypasses(
        &self,
        source_layer: &str,
        port_matchers: &GlobSet,
        concrete_matchers: &GlobSet,
        file_path: &str,
        import_path: &str,
    ) -> (r: bool)
        requires
            globs::set_patterns(*concrete_matchers) == self@.concrete_patterns,
        ensures
            r == bypasses_ports(
                self@,
                file_path@,
                source_layer@,
                globs::set_patterns(*port_matchers),
                import_path@,
            ),
    {
        let resolved = resolve_import_path(file_path, import_path);
        let target: &str = match &resolved {
            Some(path) => path.as_str(),
            None => import_path,
        };
        assert(target@ == import_target(file_path@, import_path@));
        if glob_set_matches(port_matchers, target) || glob_set_matches(
            port_matchers,
            import_path,
        ) {
            return false;
        }
        let target_layer = self.config.layer_for_path(target);
        if let Some(layer) = target_layer {
            if same_text(layer, source_layer) {
                return false;
            }
        }
        let into_infrastructure = match target_layer {
            Some(layer) => same_text(layer, "infrastructure"),
            None => false,
        };
        into_infrastructure || glob_set_matches(concrete_matchers, target) || glob_set_matches(
            concrete_matchers,
            import_path,
        )
    }

    fn validate_file(
        &self,
        normalized_path: &str,
        file: &FileLayout,
        rules: &Vec<CompiledRuleView<'_>>,
    ) -> (r: Vec<Violation>)
        requires
            normalized_path@ == path::normalized(file.file_path@),
            rules.deep_view() == self@.rules,
        ensures
            r.deep_view() == file_violations(self@, file.deep_view()),
    {
        let mut violations: Vec<Violation> = Vec::new();
        let mut i: usize = 0;
        let ghost all = rules.deep_view();
        assert(violations.deep_view() =~= all_rule_violations(all.take(0), file.deep_view()));
        while i < rules.len()
            invariant
                i <= rules@.len(),
                all == rules.deep_view(),
                normalized_path@ == path::normalized(file.file_path@),
                violations.deep_view() == all_rule_violations(
                    all.take(i as int),
                    file.deep_view(),
                ),
            decreases rules@.len() - i,
        {
            proof {
                assert(all.take(i + 1).drop_last() == all.take(i as int));
                assert(all.take(i + 1).last() == rules@[i as int].deep_view());
            }
            append_violations(&mut violations, check_rule(&rules[i], normalized_path, file));
            i += 1;
        }
        assert(all.take(i as int) == all);
        if let Some(source_layer) = self.config.layer_for_path(normalized_path) {
            append_violations(&mut violations, self.check_allowlist(source_layer, file));
            append_violations(&mut violations, self.check_interface_boundary(source_layer, file));
        }
        assert(violations.deep_view() =~= file_violations(self@, file.deep_view()));
        violations
    }

    /// The violations in one file.
    pub fn validate_file_layout(&self, file: &FileLayout) -> (r: AddResult<Vec<Violation>>)
        ensures
            r matches Ok(violations) && violations.deep_view() == file_violations(
                self@,
                file.deep_view(),
            ),
    {
        let rules = self.config.compiled_rules();
        let normalized = normalize_path(file.file_path.as_str());
        Ok(self.validate_file(normalized.as_str(), file, &rules))
    }

    /// The report on every file of `layout`.
    pub fn validate_layout(&self, layout: &StructuralLayout) -> (r: AddResult<ValidationReport>)
        ensures
            r matches Ok(report) && report@ == validated(self@, layout.deep_view()),
    {
        let rules = self.config.compiled_rules();
        let allowlist_layers_evaluated = self.config.layers_with_allowlists().len();
        let mut violations: Vec<Violation> = Vec::new();
        let mut i: usize = 0;
        let ghost files = layout.deep_view();
        assert(violations.deep_view() =~= layout_violations(self@, files.take(0)));
        while i < layout.files.len()
            invariant
                i <= layout.files@.len(),
                files == layout.deep_view(),
                rules.deep_view() == self@.rules,
                violations.deep_view() == layout_violations(self@, files.take(i as int)),
            decreases layout.files@.len() - i,
        {
            let file = &layout.files[i];
            proof {
                assert(files.take(i + 1).drop_last() == files.take(i as int));
                assert(files.take(i + 1).last() == file.deep_view());
            }
            let normalized = normalize_path(file.file_path.as_str());
            append_violations(
                &mut violations,
                self.validate_file(normalized.as_str(), file, &rules),
            );
            i += 1;
        }
        assert(files.take(i as int) == files);
        Ok(
            ValidationReport {
                violations,
                files_checked: layout.files.len(),
                rules_evaluated: rules.len(),
                allowlist_layers_evaluated,
            },
        )
    }
}

fn allowlist_message_text(layer: &str, allowed: &[String], target: &str) -> (r: String)
    ensures
        r@ == allowlist_message(layer@, allowed.deep_view(), target@),
{
    let list = join(allowed, ", ");
    let mut message = quoted("Layer `", layer, "` may only depend on [", list.as_str());
    message.append("], but import resolves to layer `");
    message.append(target);
    message.append("`.");
    message
}

fn allowlist_steps(layer: &str, target: &str) -> (r: Vec<String>)
    ensures
        r.deep_view() == allowlist_remediation(layer@, target@),
{
    let mut remove = quoted(
        "Remove the dependency on `",
        target,
        "` or add it to `",
        layer,
    );
    remove.append(".allowed_dependencies`.");
    let mut steps: Vec<String> = Vec::new();
    steps.push(remove);
    steps.push("Move shared contracts to an allowed layer.".to_owned());
    assert(steps.deep_view() =~= allowlist_remediation(layer@, target@));
    steps
}

fn boundary_message_text(layer: &str, port_layer: &str, import_path: &str) -> (r: String)
    ensures
        r@ == boundary_message(layer@, port_layer@, import_path@),
{
    let mut message = quoted("Layer `", layer, "` must depend on `", port_layer);
    message.append("` ports/interfaces, not concrete implementations (`");
    message.append(import_path);
    message.append("`).");
    message
}

fn boundary_steps(port_layer: &str) -> (r: Vec<String>)
    ensures
        r.deep_view() == boundary_remediation(port_layer@),
{
    let mut import = "Import from `".to_owned();
    import.append(port_layer);
    import.append("` port modules (e.g. `domain/ports/*` or `domain/interfaces/*`).");
    let mut steps: Vec<String> = Vec::new();
    steps.push(import);
    steps.push("Inject concrete implementations at the composition root.".to_owned());
    steps.push(
        "Replace direct Repository/Adapter imports with their interface definitions.".to_owned(),
    );
    assert(steps.deep_view() =~= boundary_remediation(port_layer@));
    steps
}

proof fn lemma_hits_are_checked(
    imports: Seq<ImportView>,
    check: spec_fn(ImportView) -> Option<ViolationView>,
    v: ViolationView,
)
    ensures
        hits(imports, check).contains(v) <==> exists|i: int|
            0 <= i < imports.len() && check(#[trigger] imports[i]) == Some(v),
    decreases imports.len(),
{
    if imports.len() > 0 {
        let init = imports.drop_last();
        lemma_hits_are_checked(init, check, v);
        let found = hits(init, check);
        if hits(imports, check).contains(v) {
            let k = choose|k: int| 0 <= k < hits(imports, check).len() && hits(imports, check)[k] == v;
            if k < found.len() {
                assert(found[k] == v);
                let i = choose|i: int| 0 <= i < init.len() && check(#[trigger] init[i]) == Some(v);
                assert(check(imports[i]) == Some(v));
            } else {
                assert(check(imports[imports.len() - 1]) == Some(v));
            }
        }
        if exists|i: int| 0 <= i < imports.len() && check(#[trigger] imports[i]) == Some(v) {
            let i = choose|i: int|
                0 <= i < imports.len() && check(#[trigger] imports[i]) == Some(v);
            if i < init.len() {
                assert(init[i] == imports[i]);
                let k = choose|k: int| 0 <= k < found.len() && found[k] == v;
                assert(hits(imports, check)[k] == v);
            } else {
                assert(hits(imports, check)[found.len() as int] == v);
            }
        }
    }
}

proof fn lemma_contains_in_sum<A>(a: Seq<A>, b: Seq<A>, x: A)
    ensures
        (a + b).contains(x) <==> a.contains(x) || b.contains(x),
{
    if a.contains(x) {
        let k = choose|k: int| 0 <= k < a.len() && a[k] == x;
        assert((a + b)[k] == x);
    }
    if b.contains(x) {
        let k = choose|k: int| 0 <= k < b.len() && b[k] == x;
        assert((a + b)[a.len() + k] == x);
    }
}

/// `v` is the violation of one of `rules` by one import of `file`.
pub open spec fn breaks_rule(rules: Seq<RuleMatchView>, file: FileView, v: ViolationView) -> bool {
    exists|r: int, i: int|
        0 <= r < rules.len() && 0 <= i < file.imports.len() && rule_applies(
            #[trigger] rules[r],
            path::normalized(file.file_path),
        ) && rule_hit(rules[r], file, #[trigger] file.imports[i]) == Some(v)
}

/// `v` is the violation of the allowlist of the file's layer by one of its imports.
pub open spec fn breaks_allowlist(
    config: CompiledConfigView,
    file: FileView,
    v: ViolationView,
) -> bool {
    exists|layer: Seq<char>, allowed: Seq<Seq<char>>, i: int|
        0 <= i < file.imports.len() && config::matching_layer(
            config.layers,
            path::normalized(file.file_path),
        ) == Some(layer) && config::allowed_dependencies(config, layer) == Some(allowed)
            && #[trigger] allowlist_hit(config, file, layer, allowed, file.imports[i]) == Some(v)
}

/// `v` is the violation of the interface boundary of the file's layer by one of its
/// imports.
pub open spec fn breaks_boundary(
    config: CompiledConfigView,
    file: FileView,
    v: ViolationView,
) -> bool {
    exists|layer: Seq<char>, port_layer: Seq<char>, ports: Seq<Seq<char>>, i: int|
        0 <= i < file.imports.len() && config::matching_layer(
            config.layers,
            path::normalized(file.file_path),
        ) == Some(layer) && config::interface_port_layer(config, layer) == Some(port_layer)
            && config::port_patterns(config, port_layer) == Some(ports)
            && #[trigger] boundary_hit(config, file, layer, port_layer, ports, file.imports[i])
            == Some(v)
}

proof fn lemma_rule_violations(rules: Seq<RuleMatchView>, file: FileView, v: ViolationView)
    ensures
        all_rule_violations(rules, file).contains(v) <==> breaks_rule(rules, file, v),
    decreases rules.len(),
{
    if rules.len() > 0 {
        let init = rules.drop_last();
        let last = rules.last();
        lemma_rule_violations(init, file, v);
        lemma_contains_in_sum(all_rule_violations(init, file), rule_violations(last, file), v);
        lemma_hits_are_checked(file.imports, rule_check(last, file), v);
        if breaks_rule(init, file, v) {
            let (r, i) = choose|r: int, i: int|
                0 <= r < init.len() && 0 <= i < file.imports.len() && rule_applies(
                    #[trigger] init[r],
                    path::normalized(file.file_path),
                ) && rule_hit(init[r], file, #[trigger] file.imports[i]) == Some(v);
            assert(rules[r] == init[r]);
        }
        if rule_violations(last, file).contains(v) {
            let i = choose|i: int|
                0 <= i < file.imports.len() && rule_check(last, file)(#[trigger] file.imports[i])
                    == Some(v);
            assert(rules[rules.len() - 1] == last);
            assert(rule_hit(last, file, file.imports[i]) == Some(v));
        }
        if breaks_rule(rules, file, v) {
            let (r, i) = choose|r: int, i: int|
                0 <= r < rules.len() && 0 <= i < file.imports.len() && rule_applies(
                    #[trigger] rules[r],
                    path::normalized(file.file_path),
                ) && rule_hit(rules[r], file, #[trigger] file.imports[i]) == Some(v);
            if r < init.len() {
                assert(init[r] == rules[r]);
                assert(breaks_rule(init, file, v));
            } else {
                assert(rule_check(last, file)(file.imports[i]) == Some(v));
            }
        }
    }
}

/// What is reported of a file is exactly what its imports break: a rule that applies
/// to it, the allowlist of its layer, or the interface boundary of its layer.
pub proof fn reported_is_exactly_what_is_broken(
    config: CompiledConfigView,
    file: FileView,
    v: ViolationView,
)
    ensures
        file_violations(config, file).contains(v) <==> (breaks_rule(config.rules, file, v)
            || breaks_allowlist(config, file, v) || breaks_boundary(config, file, v)),
{
    lemma_rule_violations(config.rules, file, v);
    let from_rules = all_rule_violations(config.rules, file);
    match config::matching_layer(config.layers, path::normalized(file.file_path)) {
        Some(layer) => {
            let a = allowlist_violations(config, file, layer);
            let b = boundary_violations(config, file, layer);
            lemma_contains_in_sum(a, b, v);
            lemma_contains_in_sum(from_rules, a + b, v);
            if let Some(allowed) = config::allowed_dependencies(config, layer) {
                let check = allowlist_check(config, file, layer, allowed);
                lemma_hits_are_checked(file.imports, check, v);
                if a.contains(v) {
                    let i = choose|i: int|
                        0 <= i < file.imports.len() && check(#[trigger] file.imports[i]) == Some(v);
                    assert(allowlist_hit(config, file, layer, allowed, file.imports[i]) == Some(v));
                }
                if breaks_allowlist(config, file, v) {
                    let i = choose|i: int|
                        0 <= i < file.imports.len() && #[trigger] allowlist_hit(
                            config,
                            file,
                            layer,
                            allowed,
                            file.imports[i],
                        ) == Some(v);
                    assert(check(file.imports[i]) == Some(v));
                }
            }
            if let Some(port_layer) = config::interface_port_layer(config, layer) {
                if let Some(ports) = config::port_patterns(config, port_layer) {
                    let check = boundary_check(config, file, layer, port_layer, ports);
                    lemma_hits_are_checked(file.imports, check, v);
                    if b.contains(v) {
                        let i = choose|i: int|
                            0 <= i < file.imports.len() && check(#[trigger] file.imports[i])
                                == Some(v);
                        assert(boundary_hit(
                            config,
                            file,
                            layer,
                            port_layer,
                            ports,
                            file.imports[i],
                        ) == Some(v));
                    }
                    if breaks_boundary(config, file, v) {
                        let i = choose|i: int|
                            0 <= i < file.imports.len() && #[trigger] boundary_hit(
                                config,
                                file,
                                layer,
                                port_layer,
                                ports,
                                file.imports[i],
                            ) == Some(v);
                        assert(check(file.imports[i]) == Some(v));
                    }
                }
            }
        },
        None => {
            lemma_contains_in_sum(from_rules, Seq::empty(), v);
        },
    }
}

/// An import of a guarded layer that leads into the infrastructure, and not through a
/// port, is reported with high severity.
pub proof fn bypassing_the_ports_is_reported(
    config: CompiledConfigView,
    file: FileView,
    layer: Seq<char>,
    port_layer: Seq<char>,
    ports: Seq<Seq<char>>,
    i: int,
)
    requires
        0 <= i < file.imports.len(),
        config::matching_layer(config.layers, path::normalized(file.file_path)) == Some(layer),
        config::interface_port_layer(config, layer) == Some(port_layer),
        config::port_patterns(config, port_layer) == Some(ports),
        layer != "infrastructure"@,
        import_layer(config, file.file_path, file.imports[i].path) == Some("infrastructure"@),
        !import_matches(ports, file.file_path, file.imports[i].path),
    ensures
        exists|v: ViolationView|
            #[trigger] file_violations(config, file).contains(v) && v.rule
                == INTERFACE_BYPASS_RULE@ && v.severity == ViolationSeverity::High
                && v.import_path == file.imports[i].path && v.line == file.imports[i].line
                && v.column == file.imports[i].column,
{
    let hit = boundary_hit(config, file, layer, port_layer, ports, file.imports[i]);
    assert(hit is Some);
    assert(breaks_boundary(config, file, hit->0));
    reported_is_exactly_what_is_broken(config, file, hit->0);
}

/// An import that matches a port of the layer's port layer is no boundary violation,
/// and one that stays in its layer or leads to an allowed layer is no allowlist
/// violation.
pub proof fn permitted_imports_are_not_flagged(
    config: CompiledConfigView,
    file: FileView,
    layer: Seq<char>,
    port_layer: Seq<char>,
    ports: Seq<Seq<char>>,
    allowed: Seq<Seq<char>>,
    import: ImportView,
)
    ensures
        import_matches(ports, file.file_path, import.path) ==> boundary_hit(
            config,
            file,
            layer,
            port_layer,
            ports,
            import,
        ) is None,
        import_layer(config, file.file_path, import.path) == Some(layer) ==> boundary_hit(
            config,
            file,
            layer,
            port_layer,
            ports,
            import,
        ) is None && allowlist_hit(config, file, layer, allowed, import) is None,
        (import_layer(config, file.file_path, import.path) matches Some(target)
            && allowed.contains(target)) ==> allowlist_hit(config, file, layer, allowed, import)
            is None,
        import_layer(config, file.file_path, import.path) is None ==> allowlist_hit(
            config,
            file,
            layer,
            allowed,
            import,
        ) is None,
{
}

/// Every violation names its file and stands where one of the file's imports stands;
/// only a bypassed interface is of high severity.
pub proof fn violations_point_at_imports(
    config: CompiledConfigView,
    file: FileView,
    v: ViolationView,
)
    requires
        file_violations(config, file).contains(v),
    ensures
        v.file == file.file_path,
        exists|i: int|
            0 <= i < file.imports.len() && (#[trigger] file.imports[i]) == (ImportView {
                path: v.import_path,
                line: v.line,
                column: v.column,
            }),
        v.severity == ViolationSeverity::High ==> v.rule == INTERFACE_BYPASS_RULE@,
{
    reported_is_exactly_what_is_broken(config, file, v);
}

/// The violations of two layouts together are those of the first, then those of the
/// second.
pub proof fn layouts_are_validated_file_by_file(
    config: CompiledConfigView,
    first: Seq<FileView>,
    second: Seq<FileView>,
)
    ensures
        layout_violations(config, first + second) == layout_violations(config, first)
            + layout_violations(config, second),
    decreases second.len(),
{
    if second.len() == 0 {
        assert(first + second == first);
        assert(layout_violations(config, first) + layout_violations(config, second)
            == layout_violations(config, first));
    } else {
        layouts_are_validated_file_by_file(config, first, second.drop_last());
        assert((first + second).drop_last() == first + second.drop_last());
        assert((first + second).last() == second.last());
        assert(layout_violations(config, first + second) =~= layout_violations(config, first)
            + layout_violations(config, second));
    }
}

/// A violation is reported of a layout exactly where it is reported of one of its
/// files.
pub proof fn layout_reports_what_its_files_report(
    config: CompiledConfigView,
    files: Seq<FileView>,
    v: ViolationView,
)
    ensures
        validated(config, files).violations.contains(v) <==> exists|i: int|
            0 <= i < files.len() && file_violations(config, #[trigger] files[i]).contains(v),
    decreases files.len(),
{
    if files.len() > 0 {
        let init = files.drop_last();
        layout_reports_what_its_files_report(config, init, v);
        lemma_contains_in_sum(
            layout_violations(config, init),
            file_violations(config, files.last()),
            v,
        );
        if exists|i: int|
            0 <= i < init.len() && file_violations(config, #[trigger] init[i]).contains(v) {
            let i = choose|i: int|
                0 <= i < init.len() && file_violations(config, #[trigger] init[i]).contains(v);
            assert(file_violations(config, files[i]).contains(v));
        }
        if file_violations(config, files.last()).contains(v) {
            assert(file_violations(config, files[files.len() - 1]).contains(v));
        }
        if exists|i: int|
            0 <= i < files.len() && file_violations(config, #[trigger] files[i]).contains(v) {
            let i = choose|i: int|
                0 <= i < files.len() && file_violations(config, #[trigger] files[i]).contains(v);
            if i < init.len() {
                assert(file_violations(config, init[i]).contains(v));
            }
        }
    }
}

/// The violations as they are of another file.
pub open spec fn said_of(violations: Seq<ViolationView>, file_path: Seq<char>) -> Seq<
    ViolationView,
> {
    violations.map_values(|v: ViolationView| ViolationView { file: file_path, ..v })
}

proof fn lemma_said_of_sum(a: Seq<ViolationView>, b: Seq<ViolationView>, file_path: Seq<char>)
    ensures
        said_of(a + b, file_path) == said_of(a, file_path) + said_of(b, file_path),
{
    assert(said_of(a + b, file_path) =~= said_of(a, file_path) + said_of(b, file_path));
}

proof fn lemma_hits_said_of(
    imports: Seq<ImportView>,
    check: spec_fn(ImportView) -> Option<ViolationView>,
    other: spec_fn(ImportView) -> Option<ViolationView>,
    file_path: Seq<char>,
)
    requires
        forall|import: ImportView| #[trigger]
            other(import) == (match check(import) {
                Some(v) => Some(ViolationView { file: file_path, ..v }),
                None => None,
            }),
    ensures
        hits(imports, other) == said_of(hits(imports, check), file_path),
    decreases imports.len(),
{
    if imports.len() > 0 {
        lemma_hits_said_of(imports.drop_last(), check, other, file_path);
        assert(other(imports.last()) is Some == check(imports.last()) is Some);
    }
    assert(hits(imports, other) =~= said_of(hits(imports, check), file_path));
}

proof fn lemma_rules_said_of(rules: Seq<RuleMatchView>, file: FileView, other: FileView)
    requires
        path::normalized(other.file_path) == path::normalized(file.file_path),
        other.imports == file.imports,
    ensures
        all_rule_violations(rules, other) == said_of(
            all_rule_violations(rules, file),
            other.file_path,
        ),
    decreases rules.len(),
{
    if rules.len() > 0 {
        let rule = rules.last();
        lemma_rules_said_of(rules.drop_last(), file, other);
        lemma_hits_said_of(
            file.imports,
            rule_check(rule, file),
            rule_check(rule, other),
            other.file_path,
        );
        assert(rule_violations(rule, other) =~= said_of(
            rule_violations(rule, file),
            other.file_path,
        ));
        lemma_said_of_sum(
            all_rule_violations(rules.drop_last(), file),
            rule_violations(rule, file),
            other.file_path,
        );
    } else {
        assert(all_rule_violations(rules, other) =~= said_of(
            all_rule_violations(rules, file),
            other.file_path,
        ));
    }
}

/// A leading `./` on a file's path changes nothing in its violations but the file that
/// they name, so long as the path has a parent without it.
pub proof fn a_leading_dot_breaks_nothing_else(config: CompiledConfigView, file: FileView)
    requires
        path::has_parent(file.file_path),
    ensures
        ({
            let dotted = seq!['.', '/'] + file.file_path;
            file_violations(config, FileView { file_path: dotted, ..file }) == said_of(
                file_violations(config, file),
                dotted,
            )
        }),
{
    let dotted = seq!['.', '/'] + file.file_path;
    let other = FileView { file_path: dotted, ..file };
    path::a_leading_dot_adds_nothing(file.file_path);
    assert forall|import_path: Seq<char>| #[trigger]
        path::resolved_import(dotted, import_path) == path::resolved_import(
            file.file_path,
            import_path,
        ) by {
        path::a_leading_dot_leads_nowhere_else(file.file_path, import_path);
    }
    lemma_rules_said_of(config.rules, file, other);
    let from_rules = all_rule_violations(config.rules, file);
    match config::matching_layer(config.layers, path::normalized(file.file_path)) {
        Some(layer) => {
            let a = allowlist_violations(config, file, layer);
            let b = boundary_violations(config, file, layer);
            if let Some(allowed) = config::allowed_dependencies(config, layer) {
                lemma_hits_said_of(
                    file.imports,
                    allowlist_check(config, file, layer, allowed),
                    allowlist_check(config, other, layer, allowed),
                    dotted,
                );
            }
            assert(allowlist_violations(config, other, layer) =~= said_of(a, dotted));
            if let Some(port_layer) = config::interface_port_layer(config, layer) {
                if let Some(ports) = config::port_patterns(config, port_layer) {
                    lemma_hits_said_of(
                        file.imports,
                        boundary_check(config, file, layer, port_layer, ports),
                        boundary_check(config, other, layer, port_layer, ports),
                        dotted,
                    );
                }
            }
            assert(boundary_violations(config, other, layer) =~= said_of(b, dotted));
            lemma_said_of_sum(a, b, dotted);
            lemma_said_of_sum(from_rules, a + b, dotted);
        },
        None => {
            lemma_said_of_sum(from_rules, Seq::empty(), dotted);
            assert(said_of(Seq::empty(), dotted) =~= Seq::empty());
        },
    }
}

/// A relative import, and the same way written out from the project root, lead to one
/// layer, whichever file holds the second.
pub proof fn relative_and_root_imports_lead_to_one_layer(
    config: CompiledConfigView,
    file_path: Seq<char>,
    import_path: Seq<char>,
    other_file: Seq<char>,
)
    requires
        import_path.len() > 0,
        import_path[0] == '.',
        path::has_parent(file_path),
    ensures
        import_layer(
            config,
            other_file,
            seq!['/'] + path::slash_joined(
                path::parent_segments(file_path) + path::segments(import_path),
            ),
        ) == import_layer(config, file_path, import_path),
{
    path::relative_and_root_imports_meet(file_path, import_path, other_file);
}

/// The `r`th rule names the `l`th layer, somewhere among its source layers, a pattern of
/// that layer matches the file, and one of what the rule forbids matches the `i`th import.
pub open spec fn forbids(
    config: ConfigView,
    file: FileView,
    r: int,
    l: int,
    i: int,
) -> bool {
    &&& 0 <= r < config.rules.len()
    &&& 0 <= l < config.layers.len()
    &&& 0 <= i < file.imports.len()
    &&& config.rules[r].source_layers.contains(config.layers[l].0)
    &&& globs::matches_any(config.layers[l].1.path_patterns, path::normalized(file.file_path))
    &&& globs::matches_any(config.rules[r].forbidden_import_patterns, file.imports[i].path)
}

/// The file lies in the `a`th layer, which has an allowlist; the `i`th import resolves
/// into the `b`th layer, another one, which the list does not name.
pub open spec fn leaves_the_allowlist(
    config: ConfigView,
    file: FileView,
    a: int,
    b: int,
    i: int,
) -> bool {
    &&& 0 <= i < file.imports.len()
    &&& config::lies_in(config, path::normalized(file.file_path), a)
    &&& config.layers[a].1.allowed_dependencies is Some
    &&& path::resolved_import(file.file_path, file.imports[i].path) is Some
    &&& config::lies_in(
        config,
        path::resolved_import(file.file_path, file.imports[i].path)->0,
        b,
    )
    &&& a != b
    &&& !config.layers[a].1.allowed_dependencies->0.contains(config.layers[b].0)
}

/// A path at which a concrete implementation lies.
pub open spec fn is_concrete(path: Seq<char>) -> bool {
    ||| globs::glob_matches("**/repositories/**"@, path)
    ||| globs::glob_matches("**/*Repository*"@, path)
    ||| globs::glob_matches("**/infrastructure/**"@, path)
    ||| globs::glob_matches("**/data/**"@, path)
    ||| globs::glob_matches("**/implementations/**"@, path)
    ||| globs::glob_matches("**/adapters/**"@, path)
}

/// A path in the layer `infrastructure`.
pub open spec fn is_infrastructure(config: ConfigView, path: Seq<char>) -> bool {
    exists|b: int| #[trigger]
        config::lies_in(config, path, b) && config.layers[b].0 == "infrastructure"@
}

/// The file lies in the `a`th layer, which enforces its boundary by the ports of the
/// `p`th; the `i`th import, as written or, where it can be resolved, as resolved, is no
/// port, does not stay in the layer, and is a concrete implementation or lies in the
/// layer `infrastructure`.
pub open spec fn goes_past_the_ports(
    config: ConfigView,
    file: FileView,
    a: int,
    p: int,
    i: int,
) -> bool {
    let written = file.imports[i].path;
    let resolved = match path::resolved_import(file.file_path, written) {
        Some(target) => target,
        None => written,
    };
    &&& 0 <= i < file.imports.len()
    &&& 0 <= p < config.layers.len()
    &&& config::lies_in(config, path::normalized(file.file_path), a)
    &&& config.layers[a].1.enforce_interface_boundary
    &&& config.layers[p].0 == (match config.layers[a].1.interface_port_layer {
        Some(name) => name,
        None => "domain"@,
    })
    &&& config.layers[p].1.port_path_patterns.len() > 0
    &&& !globs::matches_any(config.layers[p].1.port_path_patterns, written)
    &&& !globs::matches_any(config.layers[p].1.port_path_patterns, resolved)
    &&& !config::lies_in(config, resolved, a)
    &&& is_concrete(written) || is_concrete(resolved) || is_infrastructure(config, resolved)
}

/// `v` stands where the `i`th import of the file stands.
pub open spec fn stands_at(file: FileView, i: int, v: ViolationView) -> bool {
    &&& v.file == file.file_path
    &&& v.import_path == file.imports[i].path
    &&& v.line == file.imports[i].line
    &&& v.column == file.imports[i].column
}

/// Every import that a rule forbids to one of the layers that it names is reported with
/// the rule's name, message and remediation, whichever of its source layers that is.
pub proof fn forbidden_imports_are_reported(
    config: ConfigView,
    file: FileView,
    r: int,
    l: int,
    i: int,
)
    requires
        config::distinct_names(config.layers),
        forbids(config, file, r, l, i),
    ensures
        exists|v: ViolationView| #[trigger]
            file_violations(config::compiled(config), file).contains(v) && stands_at(file, i, v)
                && v.rule == config.rules[r].name && v.message == config.rules[r].message
                && v.remediation == config.rules[r].remediation && v.severity
                == ViolationSeverity::Normal,
{
    let made = config::compiled(config);
    let rule = made.rules[r];
    config::a_compiled_rule_is_as_declared(config, r);
    let j = choose|j: int|
        0 <= j < config.rules[r].source_layers.len() && config.rules[r].source_layers[j]
            == config.layers[l].0;
    assert(rule.source_patterns[j] == config.layers[l].1.path_patterns);
    assert(rule_applies(rule, path::normalized(file.file_path)));
    let hit = rule_hit(rule, file, file.imports[i]);
    assert(breaks_rule(made.rules, file, hit->0));
    reported_is_exactly_what_is_broken(made, file, hit->0);
}

/// Every import that leaves the allowlist of its file's layer is reported with the rule
/// `layer-allowlist`.
pub proof fn imports_beyond_the_allowlist_are_reported(
    config: ConfigView,
    file: FileView,
    a: int,
    b: int,
    i: int,
)
    requires
        config::distinct_names(config.layers),
        leaves_the_allowlist(config, file, a, b, i),
    ensures
        exists|v: ViolationView| #[trigger]
            file_violations(config::compiled(config), file).contains(v) && stands_at(file, i, v)
                && v.rule == "layer-allowlist"@ && v.severity == ViolationSeverity::Normal
                && text::occurs(v.message, config.layers[a].0) && text::occurs(
                v.message,
                config.layers[b].0,
            ),
{
    let made = config::compiled(config);
    let layer = config.layers[a].0;
    let target = config.layers[b].0;
    let allowed = config.layers[a].1.allowed_dependencies->0;
    let resolved = path::resolved_import(file.file_path, file.imports[i].path)->0;
    config::a_compiled_layer_is_as_declared(config, a);
    config::a_path_lies_in_its_first_layer(config, path::normalized(file.file_path), layer);
    config::a_path_lies_in_its_first_layer(config, resolved, target);
    assert(layer != target) by {
        if a < b {
            assert(config.layers[a].0 != config.layers[b].0);
        } else {
            assert(config.layers[b].0 != config.layers[a].0);
        }
    }
    let hit = allowlist_hit(made, file, layer, allowed, file.imports[i]);
    assert(hit is Some);
    assert(breaks_allowlist(made, file, hit->0));
    reported_is_exactly_what_is_broken(made, file, hit->0);
    text::a_sum_holds_its_parts();
}

proof fn lemma_concrete(config: ConfigView, path: Seq<char>)
    ensures
        globs::matches_any(config::compiled(config).concrete_patterns, path) <==> is_concrete(path),
{
    let all = config::compiled(config).concrete_patterns;
    assert(all[0] == "**/repositories/**"@ && all[1] == "**/*Repository*"@ && all[2]
        == "**/infrastructure/**"@ && all[3] == "**/data/**"@ && all[4]
        == "**/implementations/**"@ && all[5] == "**/adapters/**"@);
    if is_concrete(path) {
        assert(globs::glob_matches(all[0], path) || globs::glob_matches(all[1], path)
            || globs::glob_matches(all[2], path) || globs::glob_matches(all[3], path)
            || globs::glob_matches(all[4], path) || globs::glob_matches(all[5], path));
    }
    if globs::matches_any(all, path) {
        let k = choose|k: int|
            0 <= k < all.len() && globs::glob_matches(#[trigger] all[k], path);
        assert(k == 0 || k == 1 || k == 2 || k == 3 || k == 4 || k == 5);
    }
}

/// Every import that goes past the ports of its file's layer is reported with the rule
/// `interface-bypass-violation` and high severity, whatever layer, if any, it leads to.
pub proof fn imports_past_the_ports_are_reported(
    config: ConfigView,
    file: FileView,
    a: int,
    p: int,
    i: int,
)
    requires
        config::distinct_names(config.layers),
        goes_past_the_ports(config, file, a, p, i),
    ensures
        exists|v: ViolationView| #[trigger]
            file_violations(config::compiled(config), file).contains(v) && stands_at(file, i, v)
                && v.rule == "interface-bypass-violation"@ && v.severity
                == ViolationSeverity::High && text::occurs(v.message, config.layers[a].0)
                && text::occurs(v.message, config.layers[p].0) && text::occurs(
                v.message,
                file.imports[i].path,
            ),
{
    let made = config::compiled(config);
    let layer = config.layers[a].0;
    let port_layer = config.layers[p].0;
    let ports = config.layers[p].1.port_path_patterns;
    let import = file.imports[i];
    let resolved = import_target(file.file_path, import.path);
    config::a_compiled_layer_is_as_declared(config, a);
    config::a_compiled_layer_is_as_declared(config, p);
    assert(config::is_declared(config.layers, port_layer));
    config::a_path_lies_in_its_first_layer(config, path::normalized(file.file_path), layer);
    config::a_path_lies_in_its_first_layer(config, resolved, layer);
    config::a_path_lies_in_its_first_layer(config, resolved, "infrastructure"@);
    lemma_concrete(config, import.path);
    lemma_concrete(config, resolved);
    if config::matching_layer(made.layers, resolved) == Some(layer) {
        let b = choose|b: int| #[trigger]
            config::lies_in(config, resolved, b) && config.layers[b].0 == layer;
        if b < a {
            assert(config.layers[b].0 != config.layers[a].0);
        } else if a < b {
            assert(config.layers[a].0 != config.layers[b].0);
        }
    }
    let hit = boundary_hit(made, file, layer, port_layer, ports, import);
    assert(hit is Some);
    assert(breaks_boundary(made, file, hit->0));
    reported_is_exactly_what_is_broken(made, file, hit->0);
    text::a_sum_holds_its_parts();
}

/// What is reported of a file by an accepted configuration stands at an import that a
/// rule forbids, that leaves the allowlist, or that goes past the ports.
pub proof fn nothing_else_is_reported(config: ConfigView, file: FileView, v: ViolationView)
    requires
        config::distinct_names(config.layers),
        config::config_problem(config) is None,
        file_violations(config::compiled(config), file).contains(v),
    ensures
        ({
            ||| v.severity == ViolationSeverity::Normal && exists|r: int, l: int, i: int| #[trigger]
                forbids(config, file, r, l, i) && stands_at(file, i, v) && v.rule
                    == config.rules[r].name
            ||| v.severity == ViolationSeverity::Normal && v.rule == "layer-allowlist"@
                && exists|a: int, b: int, i: int| #[trigger]
                leaves_the_allowlist(config, file, a, b, i) && stands_at(file, i, v)
            ||| v.severity == ViolationSeverity::High && v.rule == "interface-bypass-violation"@
                && exists|a: int, p: int, i: int| #[trigger]
                goes_past_the_ports(config, file, a, p, i) && stands_at(file, i, v)
        }),
{
    let made = config::compiled(config);
    reported_is_exactly_what_is_broken(made, file, v);
    if breaks_rule(made.rules, file, v) {
        let (r, i) = choose|r: int, i: int|
            0 <= r < made.rules.len() && 0 <= i < file.imports.len() && rule_applies(
                #[trigger] made.rules[r],
                path::normalized(file.file_path),
            ) && rule_hit(made.rules[r], file, #[trigger] file.imports[i]) == Some(v);
        lemma_rule_forbids(config, file, r, i, v);
    } else if breaks_allowlist(made, file, v) {
        lemma_allowlist_left(config, file, v);
    } else {
        lemma_ports_passed(config, file, v);
    }
}

proof fn lemma_rule_forbids(config: ConfigView, file: FileView, r: int, i: int, v: ViolationView)
    requires
        config::distinct_names(config.layers),
        config::config_problem(config) is None,
        0 <= r < config.rules.len(),
        0 <= i < file.imports.len(),
        rule_applies(config::compiled(config).rules[r], path::normalized(file.file_path)),
        rule_hit(config::compiled(config).rules[r], file, file.imports[i]) == Some(v),
    ensures
        exists|l: int| #[trigger] forbids(config, file, r, l, i),
        stands_at(file, i, v),
        v.rule == config.rules[r].name,
        v.severity == ViolationSeverity::Normal,
{
    let rule = config::compiled(config).rules[r];
    let declared = config.rules[r];
    config::a_compiled_rule_is_as_declared(config, r);
    let j = choose|j: int|
        0 <= j < rule.source_patterns.len() && globs::matches_any(
            #[trigger] rule.source_patterns[j],
            path::normalized(file.file_path),
        );
    config::accepted_sources_are_declared(config, r, j);
    let l = choose|l: int|
        0 <= l < config.layers.len() && (#[trigger] config.layers[l]).0
            == declared.source_layers[j];
    assert(rule.source_patterns[j] == config.layers[l].1.path_patterns);
    assert(declared.source_layers.contains(config.layers[l].0));
    assert(forbids(config, file, r, l, i));
}

proof fn lemma_allowlist_left(config: ConfigView, file: FileView, v: ViolationView)
    requires
        config::distinct_names(config.layers),
        breaks_allowlist(config::compiled(config), file, v),
    ensures
        v.severity == ViolationSeverity::Normal,
        v.rule == "layer-allowlist"@,
        exists|a: int, b: int, i: int| #[trigger]
            leaves_the_allowlist(config, file, a, b, i) && stands_at(file, i, v),
{
    let made = config::compiled(config);
    let (layer, allowed, i) = choose|layer: Seq<char>, allowed: Seq<Seq<char>>, i: int|
        0 <= i < file.imports.len() && config::matching_layer(
            made.layers,
            path::normalized(file.file_path),
        ) == Some(layer) && config::allowed_dependencies(made, layer) == Some(allowed)
            && #[trigger] allowlist_hit(made, file, layer, allowed, file.imports[i]) == Some(v);
    let resolved = path::resolved_import(file.file_path, file.imports[i].path)->0;
    let target = config::matching_layer(made.layers, resolved)->0;
    config::a_path_lies_in_its_first_layer(config, path::normalized(file.file_path), layer);
    config::a_path_lies_in_its_first_layer(config, resolved, target);
    let a = choose|a: int| #[trigger]
        config::lies_in(config, path::normalized(file.file_path), a) && config.layers[a].0
            == layer;
    let b = choose|b: int| #[trigger]
        config::lies_in(config, resolved, b) && config.layers[b].0 == target;
    config::a_compiled_layer_is_as_declared(config, a);
    assert(leaves_the_allowlist(config, file, a, b, i));
    assert(stands_at(file, i, v));
}

proof fn lemma_ports_passed(config: ConfigView, file: FileView, v: ViolationView)
    requires
        config::distinct_names(config.layers),
        breaks_boundary(config::compiled(config), file, v),
    ensures
        v.severity == ViolationSeverity::High,
        v.rule == "interface-bypass-violation"@,
        exists|a: int, p: int, i: int| #[trigger]
            goes_past_the_ports(config, file, a, p, i) && stands_at(file, i, v),
{
    let made = config::compiled(config);
    let (layer, port_layer, ports, i) = choose|
        layer: Seq<char>,
        port_layer: Seq<char>,
        ports: Seq<Seq<char>>,
        i: int,
    |
        0 <= i < file.imports.len() && config::matching_layer(
            made.layers,
            path::normalized(file.file_path),
        ) == Some(layer) && config::interface_port_layer(made, layer) == Some(port_layer)
            && config::port_patterns(made, port_layer) == Some(ports) && #[trigger] boundary_hit(
            made,
            file,
            layer,
            port_layer,
            ports,
            file.imports[i],
        ) == Some(v);
    let written = file.imports[i].path;
    let resolved = import_target(file.file_path, written);
    config::a_path_lies_in_its_first_layer(config, path::normalized(file.file_path), layer);
    let a = choose|a: int| #[trigger]
        config::lies_in(config, path::normalized(file.file_path), a) && config.layers[a].0
            == layer;
    config::a_compiled_layer_is_as_declared(config, a);
    config::layers_keep_their_names(config, layer);
    if !config::is_declared(config.layers, port_layer) {
        config::undeclared_layers_are_unknown(config, port_layer);
    }
    let p = choose|p: int|
        0 <= p < config.layers.len() && (#[trigger] config.layers[p]).0 == port_layer;
    config::a_compiled_layer_is_as_declared(config, p);
    config::a_path_lies_in_its_first_layer(config, resolved, layer);
    config::a_path_lies_in_its_first_layer(config, resolved, "infrastructure"@);
    lemma_concrete(config, written);
    lemma_concrete(config, resolved);
    assert(resolved == (match path::resolved_import(file.file_path, written) {
        Some(target) => target,
        None => written,
    }));
    assert(goes_past_the_ports(config, file, a, p, i));
    assert(stands_at(file, i, v));
}

proof fn lemma_hits_of_sum(
    first: Seq<ImportView>,
    second: Seq<ImportView>,
    check: spec_fn(ImportView) -> Option<ViolationView>,
)
    ensures
        hits(first + second, check) == hits(first, check) + hits(second, check),
    decreases second.len(),
{
    if second.len() == 0 {
        assert(first + second == first);
        assert(hits(first, check) + hits(second, check) =~= hits(first, check));
    } else {
        lemma_hits_of_sum(first, second.drop_last(), check);
        assert((first + second).drop_last() == first + second.drop_last());
        assert((first + second).last() == second.last());
        assert(hits(first + second, check) =~= hits(first, check) + hits(second, check));
    }
}

proof fn lemma_hits_agree(
    imports: Seq<ImportView>,
    check: spec_fn(ImportView) -> Option<ViolationView>,
    other: spec_fn(ImportView) -> Option<ViolationView>,
)
    requires
        forall|import: ImportView| #[trigger] check(import) == other(import),
    ensures
        hits(imports, check) == hits(imports, other),
    decreases imports.len(),
{
    if imports.len() > 0 {
        lemma_hits_agree(imports.drop_last(), check, other);
        assert(check(imports.last()) == other(imports.last()));
    }
}

proof fn lemma_one_hit(import: ImportView, check: spec_fn(ImportView) -> Option<ViolationView>)
    ensures
        hits(seq![import], check).len() <= 1,
{
    reveal_with_fuel(hits, 2);
    assert(seq![import].drop_last().len() == 0);
}

proof fn lemma_allowlist_without_rules(
    config: CompiledConfigView,
    rules: Seq<RuleMatchView>,
    file: FileView,
    layer: Seq<char>,
)
    ensures
        allowlist_violations(CompiledConfigView { rules, ..config }, file, layer)
            == allowlist_violations(config, file, layer),
{
    let other = CompiledConfigView { rules, ..config };
    if let Some(allowed) = config::allowed_dependencies(config, layer) {
        lemma_hits_agree(
            file.imports,
            allowlist_check(other, file, layer, allowed),
            allowlist_check(config, file, layer, allowed),
        );
    }
}

proof fn lemma_boundary_without_rules(
    config: CompiledConfigView,
    rules: Seq<RuleMatchView>,
    file: FileView,
    layer: Seq<char>,
)
    ensures
        boundary_violations(CompiledConfigView { rules, ..config }, file, layer)
            == boundary_violations(config, file, layer),
{
    let other = CompiledConfigView { rules, ..config };
    if let Some(port_layer) = config::interface_port_layer(config, layer) {
        if let Some(ports) = config::port_patterns(config, port_layer) {
            lemma_hits_agree(
                file.imports,
                boundary_check(other, file, layer, port_layer, ports),
                boundary_check(config, file, layer, port_layer, ports),
            );
        }
    }
}

/// What the rules find comes first, as they would find it without any layer; then comes
/// what the layers find, as they would find it without any rule.
pub proof fn rules_come_before_layers(config: CompiledConfigView, file: FileView)
    ensures
        file_violations(config, file) == file_violations(
            (CompiledConfigView { layers: Seq::empty(), ..config }),
            file,
        ) + file_violations((CompiledConfigView { rules: Seq::empty(), ..config }), file),
{
    let bare = CompiledConfigView { layers: Seq::empty(), ..config };
    let free = CompiledConfigView { rules: Seq::empty(), ..config };
    let none = Seq::<ViolationView>::empty();
    assert(config::matching_layer(bare.layers, path::normalized(file.file_path)) is None);
    let found = all_rule_violations(config.rules, file);
    assert(file_violations(bare, file) =~= found);
    if let Some(layer) = config::matching_layer(
        config.layers,
        path::normalized(file.file_path),
    ) {
        lemma_allowlist_without_rules(config, Seq::empty(), file, layer);
        lemma_boundary_without_rules(config, Seq::empty(), file, layer);
        let rest = allowlist_violations(config, file, layer) + boundary_violations(
            config,
            file,
            layer,
        );
        assert(file_violations(free, file) =~= none + rest);
        assert(none + rest =~= rest);
    }
    assert(file_violations(config, file) =~= file_violations(bare, file) + file_violations(
        free,
        file,
    ));
}

/// The rules are checked one after the other, each as if it stood alone.
pub proof fn rules_are_checked_in_turn(
    config: CompiledConfigView,
    first: Seq<RuleMatchView>,
    second: Seq<RuleMatchView>,
    file: FileView,
)
    requires
        config.layers.len() == 0,
    ensures
        file_violations((CompiledConfigView { rules: first + second, ..config }), file)
            == file_violations((CompiledConfigView { rules: first, ..config }), file)
            + file_violations((CompiledConfigView { rules: second, ..config }), file),
        file_violations((CompiledConfigView { rules: Seq::empty(), ..config }), file).len() == 0,
{
    assert(config::matching_layer(config.layers, path::normalized(file.file_path)) is None);
    lemma_rules_in_turn(first, second, file);
    assert(all_rule_violations(first + second, file) + Seq::empty() =~= (all_rule_violations(
        first,
        file,
    ) + Seq::empty()) + (all_rule_violations(second, file) + Seq::empty()));
}

proof fn lemma_rules_in_turn(
    first: Seq<RuleMatchView>,
    second: Seq<RuleMatchView>,
    file: FileView,
)
    ensures
        all_rule_violations(first + second, file) == all_rule_violations(first, file)
            + all_rule_violations(second, file),
    decreases second.len(),
{
    if second.len() == 0 {
        assert(first + second == first);
        assert(all_rule_violations(first, file) + all_rule_violations(second, file)
            =~= all_rule_violations(first, file));
    } else {
        lemma_rules_in_turn(first, second.drop_last(), file);
        assert((first + second).drop_last() == first + second.drop_last());
        assert((first + second).last() == second.last());
        assert(all_rule_violations(first + second, file) =~= all_rule_violations(first, file)
            + all_rule_violations(second, file));
    }
}

/// A rule is checked against one import after the other, and found broken by each at
/// most once.
pub proof fn a_rule_checks_imports_in_turn(
    config: CompiledConfigView,
    rule: RuleMatchView,
    file_path: Seq<char>,
    first: Seq<ImportView>,
    second: Seq<ImportView>,
    import: ImportView,
)
    requires
        config.layers.len() == 0,
        config.rules == seq![rule],
    ensures
        file_violations(config, (FileView { file_path, imports: first + second }))
            == file_violations(config, (FileView { file_path, imports: first }))
            + file_violations(config, (FileView { file_path, imports: second })),
        file_violations(config, (FileView { file_path, imports: seq![import] })).len() <= 1,
{
    let whole = FileView { file_path, imports: first + second };
    let a = FileView { file_path, imports: first };
    let b = FileView { file_path, imports: second };
    let one = FileView { file_path, imports: seq![import] };
    lemma_one_rule_alone(config, rule, whole);
    lemma_one_rule_alone(config, rule, a);
    lemma_one_rule_alone(config, rule, b);
    lemma_one_rule_alone(config, rule, one);
    lemma_hits_of_sum(first, second, rule_check(rule, whole));
    lemma_hits_agree(first, rule_check(rule, whole), rule_check(rule, a));
    lemma_hits_agree(second, rule_check(rule, whole), rule_check(rule, b));
    lemma_one_hit(import, rule_check(rule, one));
    assert(rule_violations(rule, whole) =~= rule_violations(rule, a) + rule_violations(rule, b));
}

proof fn lemma_one_rule_alone(config: CompiledConfigView, rule: RuleMatchView, file: FileView)
    requires
        config.layers.len() == 0,
        config.rules == seq![rule],
    ensures
        file_violations(config, file) == rule_violations(rule, file),
{
    reveal_with_fuel(all_rule_violations, 2);
    assert(config.rules.drop_last().len() == 0);
    assert(config.rules.last() == rule);
    assert(config::matching_layer(config.layers, path::normalized(file.file_path)) is None);
    assert(file_violations(config, file) =~= rule_violations(rule, file));
}

/// Without rules, the violations of the allowlist come before those of the boundary: what
/// is of high severity comes last. Each import breaks either at most once.
pub proof fn allowlists_come_before_boundaries(
    config: CompiledConfigView,
    file: FileView,
    import: ImportView,
)
    requires
        config.rules.len() == 0,
    ensures
        forall|i: int, j: int|
            0 <= i < j < file_violations(config, file).len() && (#[trigger] file_violations(
                config,
                file,
            )[i]).severity == ViolationSeverity::High ==> (#[trigger] file_violations(
                config,
                file,
            )[j]).severity == ViolationSeverity::High,
        file_violations(config, (FileView { imports: seq![import], ..file })).len() <= 2,
        forall|i: int, j: int|
            0 <= i < j < file_violations(
                config,
                (FileView { imports: seq![import], ..file }),
            ).len() ==> (#[trigger] file_violations(
                config,
                (FileView { imports: seq![import], ..file }),
            )[i]).severity != (#[trigger] file_violations(
                config,
                (FileView { imports: seq![import], ..file }),
            )[j]).severity,
{
    let one = FileView { imports: seq![import], ..file };
    if let Some(layer) = config::matching_layer(
        config.layers,
        path::normalized(file.file_path),
    ) {
        lemma_layer_severities(config, file, layer);
        lemma_layer_severities(config, one, layer);
        let a = allowlist_violations(config, file, layer);
        let b = boundary_violations(config, file, layer);
        assert(file_violations(config, file) =~= a + b);
        let a1 = allowlist_violations(config, one, layer);
        let b1 = boundary_violations(config, one, layer);
        assert(file_violations(config, one) =~= a1 + b1);
        if let Some(allowed) = config::allowed_dependencies(config, layer) {
            lemma_one_hit(import, allowlist_check(config, one, layer, allowed));
        }
        if let Some(port_layer) = config::interface_port_layer(config, layer) {
            if let Some(ports) = config::port_patterns(config, port_layer) {
                lemma_one_hit(import, boundary_check(config, one, layer, port_layer, ports));
            }
        }
        assert(a1.len() <= 1 && b1.len() <= 1);
    }
}

proof fn lemma_layer_severities(config: CompiledConfigView, file: FileView, layer: Seq<char>)
    ensures
        forall|i: int|
            0 <= i < allowlist_violations(config, file, layer).len() ==> (
            #[trigger] allowlist_violations(config, file, layer)[i]).severity
                == ViolationSeverity::Normal,
        forall|i: int|
            0 <= i < boundary_violations(config, file, layer).len() ==> (
            #[trigger] boundary_violations(config, file, layer)[i]).severity
                == ViolationSeverity::High,
{
    let a = allowlist_violations(config, file, layer);
    let b = boundary_violations(config, file, layer);
    assert forall|i: int| 0 <= i < a.len() implies (#[trigger] a[i]).severity
        == ViolationSeverity::Normal by {
        let allowed = config::allowed_dependencies(config, layer)->0;
        let check = allowlist_check(config, file, layer, allowed);
        assert(a.contains(a[i]));
        lemma_hits_are_checked(file.imports, check, a[i]);
    }
    assert forall|i: int| 0 <= i < b.len() implies (#[trigger] b[i]).severity
        == ViolationSeverity::High by {
        let port_layer = config::interface_port_layer(config, layer)->0;
        let ports = config::port_patterns(config, port_layer)->0;
        let check = boundary_check(config, file, layer, port_layer, ports);
        assert(b.contains(b[i]));
        lemma_hits_are_checked(file.imports, check, b[i]);
    }
}

/// Without rules, and where a file's layer has no allowlist or no boundary, the imports
/// are checked one after the other.
pub proof fn a_layer_checks_imports_in_turn(
    config: CompiledConfigView,
    layer: Seq<char>,
    file_path: Seq<char>,
    first: Seq<ImportView>,
    second: Seq<ImportView>,
)
    requires
        config.rules.len() == 0,
        config::matching_layer(config.layers, path::normalized(file_path)) == Some(layer),
        config::allowed_dependencies(config, layer) is None || config::interface_port_layer(
            config,
            layer,
        ) is None,
    ensures
        file_violations(config, (FileView { file_path, imports: first + second }))
            == file_violations(config, (FileView { file_path, imports: first }))
            + file_violations(config, (FileView { file_path, imports: second })),
{
    let whole = FileView { file_path, imports: first + second };
    let a = FileView { file_path, imports: first };
    let b = FileView { file_path, imports: second };
    if let Some(allowed) = config::allowed_dependencies(config, layer) {
        let check = allowlist_check(config, whole, layer, allowed);
        lemma_hits_of_sum(first, second, check);
        lemma_hits_agree(first, check, allowlist_check(config, a, layer, allowed));
        lemma_hits_agree(second, check, allowlist_check(config, b, layer, allowed));
    }
    if let Some(port_layer) = config::interface_port_layer(config, layer) {
        if let Some(ports) = config::port_patterns(config, port_layer) {
            let check = boundary_check(config, whole, layer, port_layer, ports);
            lemma_hits_of_sum(first, second, check);
            lemma_hits_agree(first, check, boundary_check(config, a, layer, port_layer, ports));
            lemma_hits_agree(second, check, boundary_check(config, b, layer, port_layer, ports));
        }
    }
    assert(file_violations(config, whole) =~= file_violations(config, a) + file_violations(
        config,
        b,
    ));
}

/// A report counts the files, the declared rules and the declared layers with an
/// allowlist.
pub proof fn a_report_counts_what_was_checked(config: ConfigView, files: Seq<FileView>)
    ensures
        validated(config::compiled(config), files).files_checked == files.len(),
        validated(config::compiled(config), files).rules_evaluated == config.rules.len(),
        validated(config::compiled(config), files).allowlist_layers_evaluated
            == config.layers.filter(
            |entry: (Seq<char>, LayerView)| entry.1.allowed_dependencies is Some,
        ).len(),
{
    config::declared_allowlists_are_counted(config);
}

}

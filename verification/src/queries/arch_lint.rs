//! Architectural linting: project rules (from `.alarch.json`) and built-in
//! rules checked against each object of the workspace.

use vstd::prelude::*;

use super::ObjectFile;
use crate::numfmt::{digits, push_decimal, push_signed, signed_digits};
use crate::project::{parse_u64, parse_u64_vec};
use crate::text::{
    chars_of, contains, contains_vec, copy_range, find_char_in, index_of_char, lower_vec,
    lowercase, opt_view, push_str, strs, unicode_upper,
};

verus! {

/// An architectural rule violation.
#[derive(Debug, Clone)]
pub struct ArchViolation {
    pub rule_id: String,
    pub message: String,
    pub object: String,
    pub file: Option<String>,
    pub line: Option<u32>,
}

/// Kind of architectural rule.
#[derive(Debug, Clone, PartialEq, Eq, Structural)]
pub enum ArchRuleKind {
    NamingConvention,
    ForbiddenPattern,
    RequiredProperty,
    MaxComplexity,
}

/// An architectural rule.
#[derive(Debug, Clone)]
pub struct ArchRule {
    pub id: String,
    pub description: String,
    pub kind: ArchRuleKind,
    /// The object kind the rule applies to (all kinds when empty).
    pub pattern: String,
    pub values: Vec<String>,
}

/// The rules of a project.
#[derive(Debug, Clone)]
pub struct ArchConfig {
    pub rules: Vec<ArchRule>,
}

impl Default for ArchConfig {
    fn default() -> (r: ArchConfig)
        ensures
            r.rules@.len() == 0,
    {
        ArchConfig { rules: Vec::new() }
    }
}

/// The cyclomatic complexity of a procedure and the line it starts on.
#[derive(Debug, Clone)]
pub struct ProcedureComplexity {
    pub name: String,
    pub cyclomatic: u32,
    pub line: u32,
}

impl ArchConfig {
    /// The rules that always apply: table numbers must lie in 50000-99999.
    pub fn builtin_rules() -> (r: Vec<ArchRule>)
        ensures
            rules_view(r@) == seq![builtin_rule()],
    {
        let mut id = String::new();
        push_str(&mut id, "ARCH-001");
        let mut description = String::new();
        push_str(&mut description, "Table IDs must be in range 50000-99999 for custom objects");
        let mut pattern = String::new();
        push_str(&mut pattern, "table");
        let mut range = String::new();
        push_str(&mut range, "50000-99999");
        let mut values: Vec<String> = Vec::new();
        values.push(range);
        let mut rules: Vec<ArchRule> = Vec::new();
        let rule = ArchRule { id, description, kind: ArchRuleKind::RequiredProperty, pattern, values };
        assert(strs(rule.values@) =~= seq!["50000-99999"@]);
        rules.push(rule);
        assert(rules_view(rules@) =~= seq![builtin_rule()]);
        rules
    }
}

/// A rule applies to an object kind (given lowercased) when its pattern is
/// empty or occurs, lowercased, in the kind.
pub open spec fn applies_to(pattern: Seq<char>, kind_lower: Seq<char>) -> bool {
    pattern.len() == 0 || contains(kind_lower, lowercase(pattern))
}

/// Whether a rule with this pattern applies to an object kind.
pub fn applies_to_kind(rule_pattern: &str, obj_kind_lower: &str) -> (b: bool)
    ensures
        b == applies_to(rule_pattern@, obj_kind_lower@),
{
    let p = chars_of(rule_pattern);
    p.len() == 0 || contains_vec(&chars_of(obj_kind_lower), &lower_vec(&p))
}

/// A violation as plain values: rule id, message, object, file, line.
pub type ViolationView = (Seq<char>, Seq<char>, Seq<char>, Option<Seq<char>>, Option<u32>);

pub open spec fn violation_view(v: ArchViolation) -> ViolationView {
    (v.rule_id@, v.message@, v.object@, opt_view(v.file), v.line)
}

pub open spec fn violations_view(v: Seq<ArchViolation>) -> Seq<ViolationView> {
    v.map_values(|x: ArchViolation| violation_view(x))
}

/// A rule as plain values: id, description, kind, pattern, values.
pub type RuleView = (Seq<char>, Seq<char>, ArchRuleKind, Seq<char>, Seq<Seq<char>>);

pub open spec fn rule_view(r: ArchRule) -> RuleView {
    (r.id@, r.description@, r.kind, r.pattern@, strs(r.values@))
}

pub open spec fn rules_view(v: Seq<ArchRule>) -> Seq<RuleView> {
    v.map_values(|r: ArchRule| rule_view(r))
}

/// The built-in rule: table numbers must lie in 50000-99999.
pub open spec fn builtin_rule() -> RuleView {
    (
        "ARCH-001"@,
        "Table IDs must be in range 50000-99999 for custom objects"@,
        ArchRuleKind::RequiredProperty,
        "table"@,
        seq!["50000-99999"@],
    )
}

/// `str::parse::<u32>`: an optional `+` and at least one decimal digit,
/// with a value that fits.
pub open spec fn parse_u32(s: Seq<char>) -> Option<u32> {
    match parse_u64(s) {
        Some(v) => if v <= u32::MAX {
            Some(v as u32)
        } else {
            None
        },
        None => None,
    }
}

fn parse_u32_vec(s: &Vec<char>) -> (r: Option<u32>)
    ensures
        r == parse_u32(s@),
{
    match parse_u64_vec(s) {
        Some(v) => if v <= 0xffff_ffff {
            Some(v as u32)
        } else {
            None
        },
        None => None,
    }
}

/// The violations that `forbidden` patterns from index `j` give: one for
/// each pattern that occurs in the lowercased text, lowercased itself.
pub open spec fn forbidden_hits(
    rule: RuleView,
    obj: ObjectFile,
    patterns: Seq<Seq<char>>,
) -> Seq<ViolationView>
    decreases patterns.len(),
{
    if patterns.len() == 0 {
        seq![]
    } else {
        let prev = forbidden_hits(rule, obj, patterns.drop_last());
        let f = patterns.last();
        if contains(lowercase(obj.text@), lowercase(f)) {
            prev.push(
                (
                    rule.0,
                    rule.1 + ": '"@ + obj.name@ + "' contains forbidden pattern '"@ + f
                        + "'"@,
                    obj.name@,
                    Some(obj.path@),
                    Some(1u32),
                ),
            )
        } else {
            prev
        }
    }
}

/// The violations that complexity figures from index `j` give: one for each
/// procedure above `max`.
pub open spec fn complexity_hits(
    rule: RuleView,
    obj: ObjectFile,
    metrics: Seq<ProcedureComplexity>,
    max: u32,
) -> Seq<ViolationView>
    decreases metrics.len(),
{
    if metrics.len() == 0 {
        seq![]
    } else {
        let prev = complexity_hits(rule, obj, metrics.drop_last(), max);
        let m = metrics.last();
        if m.cyclomatic > max {
            prev.push(
                (
                    rule.0,
                    rule.1 + ": '"@ + m.name@ + "' complexity "@ + digits(
                        m.cyclomatic as nat,
                    ) + " > "@ + digits(max as nat),
                    obj.name@,
                    Some(obj.path@),
                    Some(m.line),
                ),
            )
        } else {
            prev
        }
    }
}

/// The violations one rule finds in one object (`kind_lower` is its kind,
/// lowercased; `metrics` the complexity of its procedures):
/// - naming convention: when the rule's first value holds `[A-Z]` and the
///   object's name does not start with an uppercase letter;
/// - forbidden pattern: one per value that occurs in the text, both
///   lowercased;
/// - required property: when the object has a number, the first value is a
///   range `lo-hi` (split at its first `-`; an unreadable bound is 0 or
///   `u32::MAX`) and the number's low 32 bits lie outside it;
/// - maximum complexity: one per procedure above the first value (10 when
///   absent or unreadable).
pub open spec fn rule_violations(
    obj: ObjectFile,
    kind_lower: Seq<char>,
    rule: RuleView,
    metrics: Seq<ProcedureComplexity>,
) -> Seq<ViolationView> {
    let name = obj.name@;
    let here = (rule.0, obj.name@, Some(obj.path@), Some(1u32));
    if !applies_to(rule.3, kind_lower) {
        seq![]
    } else {
        match rule.2 {
            ArchRuleKind::NamingConvention => if rule.4.len() > 0 && contains(
                rule.4[0],
                "[A-Z]"@,
            ) && !(name.len() > 0 && unicode_upper(name[0])) {
                seq![
                    (
                        rule.0,
                        rule.1 + ": '"@ + name + "' does not start with uppercase"@,
                        name,
                        Some(obj.path@),
                        Some(1u32),
                    ),
                ]
            } else {
                seq![]
            },
            ArchRuleKind::ForbiddenPattern => forbidden_hits(rule, obj, rule.4),
            ArchRuleKind::RequiredProperty => match obj.id {
                Some(id) => if rule.4.len() > 0 && index_of_char(rule.4[0], '-')
                    < rule.4[0].len() {
                    let range = rule.4[0];
                    let dash = index_of_char(range, '-') as int;
                    let lo = match parse_u32(range.take(dash)) {
                        Some(v) => v,
                        None => 0,
                    };
                    let hi = match parse_u32(range.skip(dash + 1)) {
                        Some(v) => v,
                        None => u32::MAX,
                    };
                    if lo <= (id as u32) <= hi {
                        seq![]
                    } else {
                        seq![
                            (
                                rule.0,
                                rule.1 + ": ID "@ + signed_digits(id as int)
                                    + " outside allowed range "@ + range,
                                name,
                                Some(obj.path@),
                                Some(1u32),
                            ),
                        ]
                    }
                } else {
                    seq![]
                },
                None => seq![],
            },
            ArchRuleKind::MaxComplexity => {
                let max = if rule.4.len() > 0 {
                    match parse_u32(rule.4[0]) {
                        Some(v) => v,
                        None => 10u32,
                    }
                } else {
                    10u32
                };
                complexity_hits(rule, obj, metrics, max)
            },
        }
    }
}

fn copy_string(s: &str) -> (r: String)
    ensures
        r@ == s@,
{
    let mut r = String::new();
    push_str(&mut r, s);
    r
}

fn push_violation(
    violations: &mut Vec<ArchViolation>,
    rule: &ArchRule,
    obj: &ObjectFile,
    message: String,
    line: u32,
)
    ensures
        violations_view(final(violations)@) == violations_view(old(violations)@).push(
            (rule.id@, message@, obj.name@, Some(obj.path@), Some(line)),
        ),
{
    let v = ArchViolation {
        rule_id: copy_string(rule.id.as_str()),
        message,
        object: copy_string(obj.name.as_str()),
        file: Some(copy_string(obj.path.as_str())),
        line: Some(line),
    };
    let ghost v0 = violations_view(violations@);
    violations.push(v);
    assert(violations_view(violations@) =~= v0.push(violation_view(v)));
}

/// Append the violations of `rule` in `obj` (see [`rule_violations`]).
pub fn apply_rule(
    obj: &ObjectFile,
    obj_kind_lower: &str,
    rule: &ArchRule,
    metrics: &Vec<ProcedureComplexity>,
    violations: &mut Vec<ArchViolation>,
)
    ensures
        violations_view(final(violations)@) == violations_view(old(violations)@) + rule_violations(
            *obj,
            obj_kind_lower@,
            rule_view(*rule),
            metrics@,
        ),
{
    let ghost v0 = violations_view(violations@);
    if !applies_to_kind(rule.pattern.as_str(), obj_kind_lower) {
        assert(v0 + Seq::<ViolationView>::empty() =~= v0);
        return;
    }
    match rule.kind {
        ArchRuleKind::NamingConvention => {
            if rule.values.len() > 0 && contains_vec(
                &chars_of(rule.values[0].as_str()),
                &chars_of("[A-Z]"),
            ) {
                let n = chars_of(obj.name.as_str());
                if !(n.len() > 0 && n[0].is_uppercase()) {
                    let mut m = copy_string(rule.description.as_str());
                    push_str(&mut m, ": '");
                    push_str(&mut m, obj.name.as_str());
                    push_str(&mut m, "' does not start with uppercase");
                    push_violation(violations, rule, obj, m, 1);
                    assert(violations_view(violations@) =~= v0 + rule_violations(
                        *obj,
                        obj_kind_lower@,
                        rule_view(*rule),
                        metrics@,
                    ));
                    return;
                }
            }
            assert(v0 + Seq::<ViolationView>::empty() =~= v0);
        },
        ArchRuleKind::ForbiddenPattern => {
            let text_lower = lower_vec(&chars_of(obj.text.as_str()));
            let ghost pats = strs(rule.values@);
            let mut j: usize = 0;
            assert(v0 + forbidden_hits(rule_view(*rule), *obj, pats.take(0)) =~= v0);
            while j < rule.values.len()
                invariant
                    j <= rule.values@.len(),
                    pats == strs(rule.values@),
                    text_lower@ == lowercase(obj.text@),
                    violations_view(violations@) == v0 + forbidden_hits(
                        rule_view(*rule),
                        *obj,
                        pats.take(j as int),
                    ),
                decreases rule.values@.len() - j,
            {
                let f = &rule.values[j];
                assert(pats.take(j + 1).drop_last() =~= pats.take(j as int));
                assert(pats.take(j + 1).last() == f@);
                let ghost before = violations_view(violations@);
                if contains_vec(&text_lower, &lower_vec(&chars_of(f.as_str()))) {
                    let mut m = copy_string(rule.description.as_str());
                    push_str(&mut m, ": '");
                    push_str(&mut m, obj.name.as_str());
                    push_str(&mut m, "' contains forbidden pattern '");
                    push_str(&mut m, f.as_str());
                    push_str(&mut m, "'");
                    push_violation(violations, rule, obj, m, 1);
                    assert(violations_view(violations@) =~= v0 + forbidden_hits(
                        rule_view(*rule),
                        *obj,
                        pats.take(j + 1),
                    ));
                }
                j = j + 1;
            }
            assert(pats.take(rule.values@.len() as int) =~= pats);
        },
        ArchRuleKind::RequiredProperty => {
            match obj.id {
                Some(id) => {
                    if rule.values.len() > 0 {
                        let range = chars_of(rule.values[0].as_str());
                        let dash = find_char_in(&range, '-', 0, range.len());
                        assert(range@.subrange(0, range@.len() as int) =~= range@);
                        if dash < range.len() {
                            let before = copy_range(&range, 0, dash);
                            let after = copy_range(&range, dash + 1, range.len());
                            assert(before@ =~= range@.take(dash as int));
                            assert(after@ =~= range@.skip(dash + 1));
                            let lo: u32 = match parse_u32_vec(&before) {
                                Some(v) => v,
                                None => 0,
                            };
                            let hi: u32 = match parse_u32_vec(&after) {
                                Some(v) => v,
                                None => 0xffff_ffff,
                            };
                            let n = id as u32;
                            if !(lo <= n && n <= hi) {
                                let mut m = copy_string(rule.description.as_str());
                                push_str(&mut m, ": ID ");
                                push_signed(&mut m, id);
                                push_str(&mut m, " outside allowed range ");
                                push_str(&mut m, rule.values[0].as_str());
                                push_violation(violations, rule, obj, m, 1);
                                assert(violations_view(violations@) =~= v0 + rule_violations(
                                    *obj,
                                    obj_kind_lower@,
                                    rule_view(*rule),
                                    metrics@,
                                ));
                                return;
                            }
                        }
                    }
                },
                None => {},
            }
            assert(v0 + Seq::<ViolationView>::empty() =~= v0);
        },
        ArchRuleKind::MaxComplexity => {
            let max: u32 = if rule.values.len() > 0 {
                match parse_u32_vec(&chars_of(rule.values[0].as_str())) {
                    Some(v) => v,
                    None => 10,
                }
            } else {
                10
            };
            let mut j: usize = 0;
            assert(v0 + complexity_hits(rule_view(*rule), *obj, metrics@.take(0), max) =~= v0);
            while j < metrics.len()
                invariant
                    j <= metrics@.len(),
                    violations_view(violations@) == v0 + complexity_hits(
                        rule_view(*rule),
                        *obj,
                        metrics@.take(j as int),
                        max,
                    ),
                decreases metrics@.len() - j,
            {
                let m = &metrics[j];
                assert(metrics@.take(j + 1).drop_last() =~= metrics@.take(j as int));
                if m.cyclomatic > max {
                    let mut msg = copy_string(rule.description.as_str());
                    push_str(&mut msg, ": '");
                    push_str(&mut msg, m.name.as_str());
                    push_str(&mut msg, "' complexity ");
                    push_decimal(&mut msg, m.cyclomatic as u64);
                    push_str(&mut msg, " > ");
                    push_decimal(&mut msg, max as u64);
                    push_violation(violations, rule, obj, msg, m.line);
                    assert(violations_view(violations@) =~= v0 + complexity_hits(
                        rule_view(*rule),
                        *obj,
                        metrics@.take(j + 1),
                        max,
                    ));
                }
                j = j + 1;
            }
            assert(metrics@.take(metrics@.len() as int) =~= metrics@);
        },
    }
}

/// The violations of a list of rules in one object, rule by rule.
pub open spec fn rules_violations(
    obj: ObjectFile,
    kind_lower: Seq<char>,
    rules: Seq<RuleView>,
    metrics: Seq<ProcedureComplexity>,
) -> Seq<ViolationView>
    decreases rules.len(),
{
    if rules.len() == 0 {
        seq![]
    } else {
        rules_violations(obj, kind_lower, rules.drop_last(), metrics) + rule_violations(
            obj,
            kind_lower,
            rules.last(),
            metrics,
        )
    }
}

fn apply_rules(
    obj: &ObjectFile,
    obj_kind_lower: &str,
    rules: &Vec<ArchRule>,
    metrics: &Vec<ProcedureComplexity>,
    violations: &mut Vec<ArchViolation>,
)
    ensures
        violations_view(final(violations)@) == violations_view(old(violations)@) + rules_violations(
            *obj,
            obj_kind_lower@,
            rules_view(rules@),
            metrics@,
        ),
{
    let ghost v0 = violations_view(violations@);
    let mut j: usize = 0;
    let ghost rv = rules_view(rules@);
    assert(v0 + rules_violations(*obj, obj_kind_lower@, rv.take(0), metrics@) =~= v0);
    while j < rules.len()
        invariant
            j <= rules@.len(),
            rv == rules_view(rules@),
            violations_view(violations@) == v0 + rules_violations(
                *obj,
                obj_kind_lower@,
                rv.take(j as int),
                metrics@,
            ),
        decreases rules@.len() - j,
    {
        assert(rv.take(j + 1).drop_last() =~= rv.take(j as int));
        assert(rv.take(j + 1).last() == rule_view(rules@[j as int]));
        apply_rule(obj, obj_kind_lower, &rules[j], metrics, violations);
        assert(v0 + rules_violations(*obj, obj_kind_lower@, rv.take(j as int), metrics@)
            + rule_violations(*obj, obj_kind_lower@, rv[j as int], metrics@) =~= v0
            + rules_violations(*obj, obj_kind_lower@, rv.take(j + 1), metrics@));
        j = j + 1;
    }
    assert(rv.take(rules@.len() as int) =~= rv);
}

/// The violations of the project's rules and then of the built-in rules in
/// one object (its kind compared lowercased).
pub fn arch_lint_object(
    obj: &ObjectFile,
    metrics: &Vec<ProcedureComplexity>,
    config: &ArchConfig,
) -> (r: Vec<ArchViolation>)
    ensures
        violations_view(r@) == rules_violations(
            *obj,
            lowercase(obj.kind@),
            rules_view(config.rules@),
            metrics@,
        ) + rules_violations(*obj, lowercase(obj.kind@), seq![builtin_rule()], metrics@),
{
    let kind_lower = crate::text::to_lower(obj.kind.as_str());
    let mut violations: Vec<ArchViolation> = Vec::new();
    assert(violations_view(violations@) =~= Seq::<ViolationView>::empty());
    apply_rules(obj, kind_lower.as_str(), &config.rules, metrics, &mut violations);
    let builtin = ArchConfig::builtin_rules();
    apply_rules(obj, kind_lower.as_str(), &builtin, metrics, &mut violations);
    proof {
        assert(Seq::<ViolationView>::empty() + rules_violations(
            *obj,
            lowercase(obj.kind@),
            rules_view(config.rules@),
            metrics@,
        ) =~= rules_violations(*obj, lowercase(obj.kind@), rules_view(config.rules@), metrics@));
    }
    violations
}

/// The violations of all objects, each with the complexity of its
/// procedures, object by object.
pub open spec fn workspace_violations(
    objs: Seq<(ObjectFile, Vec<ProcedureComplexity>)>,
    rules: Seq<RuleView>,
) -> Seq<ViolationView>
    decreases objs.len(),
{
    if objs.len() == 0 {
        seq![]
    } else {
        let (o, m) = objs.last();
        workspace_violations(objs.drop_last(), rules) + rules_violations(
            o,
            lowercase(o.kind@),
            rules,
            m@,
        ) + rules_violations(o, lowercase(o.kind@), seq![builtin_rule()], m@)
    }
}

/// Run the project's rules and the built-in rules against every object.
pub fn arch_lint(
    objects: &Vec<(ObjectFile, Vec<ProcedureComplexity>)>,
    config: &ArchConfig,
) -> (r: Vec<ArchViolation>)
    ensures
        violations_view(r@) == workspace_violations(objects@, rules_view(config.rules@)),
{
    let mut out: Vec<ArchViolation> = Vec::new();
    let mut i: usize = 0;
    assert(violations_view(out@) =~= Seq::<ViolationView>::empty());
    while i < objects.len()
        invariant
            i <= objects@.len(),
            violations_view(out@) == workspace_violations(
                objects@.take(i as int),
                rules_view(config.rules@),
            ),
        decreases objects@.len() - i,
    {
        assert(objects@.take(i + 1).drop_last() =~= objects@.take(i as int));
        let v = arch_lint_object(&objects[i].0, &objects[i].1, config);
        let ghost o0 = violations_view(out@);
        let mut j: usize = 0;
        while j < v.len()
            invariant
                j <= v@.len(),
                violations_view(out@) == o0 + violations_view(v@).take(j as int),
            decreases v@.len() - j,
        {
            let x = ArchViolation {
                rule_id: copy_string(v[j].rule_id.as_str()),
                message: copy_string(v[j].message.as_str()),
                object: copy_string(v[j].object.as_str()),
                file: match &v[j].file {
                    Some(f) => Some(copy_string(f.as_str())),
                    None => None,
                },
                line: v[j].line,
            };
            let ghost before = violations_view(out@);
            out.push(x);
            assert(violations_view(out@) =~= before.push(violation_view(x)));
            assert(violations_view(v@).take(j + 1) =~= violations_view(v@).take(j as int).push(
                violation_view(v@[j as int]),
            ));
            j = j + 1;
        }
        assert(violations_view(v@).take(v@.len() as int) =~= violations_view(v@));
        i = i + 1;
    }
    assert(objects@.take(objects@.len() as int) =~= objects@);
    out
}

} // verus!

//! Diagnostics, labelled spans, and rule suppression by syntactic scope.
use vstd::prelude::*;

verus! {

/// A half-open range `[start, start + len)` of one text's characters.
#[derive(Copy, Clone, Debug, PartialEq, Eq, Structural)]
pub struct Span {
    pub start: usize,
    pub len: usize,
}

impl Span {
    /// Creates a span from its start and length.
    pub fn new(start: usize, len: usize) -> (r: Span)
        ensures
            r.start == start,
            r.len == len,
    {
        Span { start, len }
    }

    /// The offset one past the span's last character.
    pub fn end(&self) -> (r: usize)
        requires
            self.start + self.len <= usize::MAX,
        ensures
            r == self.start + self.len,
    {
        self.start + self.len
    }
}

/// The severity of a diagnostic.
#[derive(Copy, Clone, Debug, PartialEq, Eq, Structural)]
pub enum Severity {
    Error,
    Warning,
    Note,
}

/// A message attached to a span.
#[derive(Clone, Debug)]
pub struct Label {
    pub message: String,
    pub span: Span,
}

/// A diagnostic: severity, summary, labels, an optional fix hint and the
/// rule that produced it.
#[derive(Clone, Debug)]
pub struct Diagnostic {
    pub severity: Severity,
    pub message: String,
    pub labels: Vec<Label>,
    pub fix: Option<String>,
    pub rule: Option<String>,
}

/// The labels of a diagnostic as (message, span) pairs.
pub open spec fn labels_of(d: Diagnostic) -> Seq<(Seq<char>, Span)> {
    d.labels@.map_values(|l: Label| (l.message@, l.span))
}

/// The rule of a diagnostic as characters.
pub open spec fn rule_of(d: Diagnostic) -> Option<Seq<char>> {
    match d.rule {
        Some(r) => Some(r@),
        None => None,
    }
}

/// The fix hint of a diagnostic as characters.
pub open spec fn fix_of(d: Diagnostic) -> Option<Seq<char>> {
    match d.fix {
        Some(f) => Some(f@),
        None => None,
    }
}

impl Diagnostic {
    fn with_severity(severity: Severity, message: String) -> (r: Diagnostic)
        ensures
            r.severity == severity,
            r.message@ == message@,
            r.labels@.len() == 0,
            r.fix is None,
            r.rule is None,
    {
        Diagnostic { severity, message, labels: Vec::new(), fix: None, rule: None }
    }

    /// An error with the given summary and nothing else.
    pub fn error(message: String) -> (r: Diagnostic)
        ensures
            r.severity == Severity::Error,
            r.message@ == message@,
            r.labels@.len() == 0,
            r.fix is None,
            r.rule is None,
    {
        Diagnostic::with_severity(Severity::Error, message)
    }

    /// A warning with the given summary and nothing else.
    pub fn warning(message: String) -> (r: Diagnostic)
        ensures
            r.severity == Severity::Warning,
            r.message@ == message@,
            r.labels@.len() == 0,
            r.fix is None,
            r.rule is None,
    {
        Diagnostic::with_severity(Severity::Warning, message)
    }

    /// A note with the given summary and nothing else.
    pub fn note(message: String) -> (r: Diagnostic)
        ensures
            r.severity == Severity::Note,
            r.message@ == message@,
            r.labels@.len() == 0,
            r.fix is None,
            r.rule is None,
    {
        Diagnostic::with_severity(Severity::Note, message)
    }

    /// The diagnostic with its rule set to `rule`.
    pub fn with_rule(self, rule: String) -> (r: Diagnostic)
        ensures
            r.severity == self.severity,
            r.message@ == self.message@,
            labels_of(r) == labels_of(self),
            fix_of(r) == fix_of(self),
            rule_of(r) == Some(rule@),
    {
        Diagnostic { rule: Some(rule), ..self }
    }

    /// The diagnostic with one more label at the end.
    pub fn with_label(self, message: String, span: Span) -> (r: Diagnostic)
        ensures
            r.severity == self.severity,
            r.message@ == self.message@,
            labels_of(r) == labels_of(self).push((message@, span)),
            fix_of(r) == fix_of(self),
            rule_of(r) == rule_of(self),
    {
        let mut d = self;
        d.labels.push(Label { message, span });
        assert(labels_of(d) =~= labels_of(self).push((message@, span)));
        d
    }

    /// The diagnostic with its fix hint set to `fix`.
    pub fn with_fix(self, fix: String) -> (r: Diagnostic)
        ensures
            r.severity == self.severity,
            r.message@ == self.message@,
            labels_of(r) == labels_of(self),
            fix_of(r) == Some(fix@),
            rule_of(r) == rule_of(self),
    {
        Diagnostic { fix: Some(fix), ..self }
    }
}

/// The kinds of syntax nodes and tokens that rules and suppression scopes
/// refer to.
#[derive(Copy, Clone, Debug, PartialEq, Eq, Structural)]
pub enum SyntaxKind {
    RootNode,
    VersionStatementNode,
    ImportStatementNode,
    StructDefinitionNode,
    WorkflowDefinitionNode,
    TaskDefinitionNode,
    InputSectionNode,
    OutputSectionNode,
    CommandSectionNode,
    RuntimeSectionNode,
    MetadataSectionNode,
    BoundDeclNode,
    UnboundDeclNode,
    CommandKeyword,
    Ident,
    Comment,
    Whitespace,
}

/// One node on the path from a syntax element up to the root, with the
/// rules that its suppression annotation names.
#[derive(Clone, Debug)]
pub struct NodeInfo {
    pub kind: SyntaxKind,
    /// The rule identifiers the node's annotation excepts.
    pub excepted: Vec<String>,
    /// Whether the annotation excepts every rule.
    pub excepts_all: bool,
}

/// Whether node `n` carries an annotation that excepts `rule`.
pub open spec fn excepts(n: NodeInfo, rule: Seq<char>) -> bool {
    n.excepts_all || exists|j: int| 0 <= j < n.excepted@.len() && (#[trigger] n.excepted@[j])@ == rule
}

/// Whether a diagnostic of `rule`, raised on the element whose ancestry
/// (itself first, then each parent up to the root) is `ancestors`, is
/// suppressed: some ancestor of a kind in `kinds` excepts the rule.
pub open spec fn suppressed(
    rule: Option<Seq<char>>,
    ancestors: Seq<NodeInfo>,
    kinds: Option<Seq<SyntaxKind>>,
) -> bool {
    &&& rule is Some
    &&& kinds is Some
    &&& exists|i: int|
        0 <= i < ancestors.len() && kinds->Some_0.contains((#[trigger] ancestors[i]).kind)
            && excepts(ancestors[i], rule->Some_0)
}

/// The kinds of an optional list as a sequence.
pub open spec fn kinds_of(kinds: Option<&[SyntaxKind]>) -> Option<Seq<SyntaxKind>> {
    match kinds {
        Some(k) => Some(k@),
        None => None,
    }
}

/// A diagnostic raised on an element, one of whose ancestors of an
/// exceptable kind excepts the diagnostic's rule, is suppressed.
pub proof fn law_excepted_ancestor_suppresses(
    rule: Seq<char>,
    ancestors: Seq<NodeInfo>,
    kinds: Seq<SyntaxKind>,
    i: int,
)
    requires
        0 <= i < ancestors.len(),
        kinds.contains(ancestors[i].kind),
        excepts(ancestors[i], rule),
    ensures
        suppressed(Some(rule), ancestors, Some(kinds)),
{
}

/// A diagnostic raised on an element none of whose ancestors of an
/// exceptable kind excepts the diagnostic's rule is not suppressed.
pub proof fn law_unrelated_element_not_suppressed(
    rule: Seq<char>,
    ancestors: Seq<NodeInfo>,
    kinds: Seq<SyntaxKind>,
)
    requires
        forall|i: int|
            0 <= i < ancestors.len() && kinds.contains(#[trigger] ancestors[i].kind) ==> !excepts(
                ancestors[i],
                rule,
            ),
    ensures
        !suppressed(Some(rule), ancestors, Some(kinds)),
{
}

/// A shared, append-only collection of diagnostics.
pub struct Diagnostics {
    items: Vec<Diagnostic>,
}

impl View for Diagnostics {
    type V = Seq<Diagnostic>;

    closed spec fn view(&self) -> Seq<Diagnostic> {
        self.items@
    }
}

fn node_excepts(n: &NodeInfo, rule: &String) -> (r: bool)
    ensures
        r == excepts(*n, rule@),
{
    if n.excepts_all {
        return true;
    }
    let mut j: usize = 0;
    while j < n.excepted.len()
        invariant
            j <= n.excepted@.len(),
            forall|k: int| 0 <= k < j ==> (#[trigger] n.excepted@[k])@ != rule@,
            !n.excepts_all,
        decreases n.excepted@.len() - j,
    {
        if n.excepted[j] == *rule {
            return true;
        }
        j = j + 1;
    }
    false
}

fn kinds_contain(kinds: &[SyntaxKind], k: SyntaxKind) -> (r: bool)
    ensures
        r == kinds@.contains(k),
{
    let mut i: usize = 0;
    while i < kinds.len()
        invariant
            i <= kinds@.len(),
            forall|j: int| 0 <= j < i ==> kinds@[j] != k,
        decreases kinds@.len() - i,
    {
        if kinds[i] == k {
            return true;
        }
        i = i + 1;
    }
    false
}

impl Diagnostics {
    /// An empty collection.
    pub fn new() -> (r: Diagnostics)
        ensures
            r@.len() == 0,
    {
        Diagnostics { items: Vec::new() }
    }

    /// The diagnostics collected so far, in the order they were added.
    pub fn items(&self) -> (r: &Vec<Diagnostic>)
        ensures
            r@ == self@,
    {
        &self.items
    }

    /// Appends a diagnostic unconditionally.
    pub fn add(&mut self, diagnostic: Diagnostic)
        ensures
            final(self)@ == old(self)@.push(diagnostic),
    {
        self.items.push(diagnostic);
    }

    /// Appends `diagnostic` unless an ancestor of the element it was raised
    /// on, of one of the kinds `exceptable_nodes` lists, excepts its rule.
    pub fn exceptable_add(
        &mut self,
        diagnostic: Diagnostic,
        ancestors: &Vec<NodeInfo>,
        exceptable_nodes: Option<&[SyntaxKind]>,
    )
        ensures
            suppressed(rule_of(diagnostic), ancestors@, kinds_of(exceptable_nodes)) ==> final(self)@ == old(self)@,
            !suppressed(rule_of(diagnostic), ancestors@, kinds_of(exceptable_nodes)) ==> final(self)@ == old(self)@.push(diagnostic),
    {
        let ghost kinds_view = kinds_of(exceptable_nodes);
        if let Some(rule) = &diagnostic.rule {
            if let Some(kinds) = exceptable_nodes {
                let mut i: usize = 0;
                while i < ancestors.len()
                    invariant
                        i <= ancestors@.len(),
                        kinds_view == Some(kinds@),
                        kinds_view == kinds_of(exceptable_nodes),
                        self@ == old(self)@,
                        rule_of(diagnostic) == Some(rule@),
                        forall|j: int|
                            0 <= j < i ==> !(kinds@.contains((#[trigger] ancestors@[j]).kind)
                                && excepts(ancestors@[j], rule@)),
                    decreases ancestors@.len() - i,
                {
                    if kinds_contain(kinds, ancestors[i].kind) && node_excepts(
                        &ancestors[i],
                        rule,
                    ) {
                        assert(kinds@.contains(ancestors@[i as int].kind));
                        assert(excepts(ancestors@[i as int], rule@));
                        assert(suppressed(rule_of(diagnostic), ancestors@, kinds_view));
                        return;
                    }
                    i = i + 1;
                }
            }
        }
        self.items.push(diagnostic);
    }
}

/// A classification tag attached to a rule.
#[derive(Copy, Clone, Debug, PartialEq, Eq, Structural)]
pub enum Tag {
    Completeness,
    Naming,
    Spacing,
    Style,
    Clarity,
    Portability,
    Correctness,
    Sorting,
    Deprecated,
}

/// A set of tags.
pub struct TagSet {
    tags: Vec<Tag>,
}

impl View for TagSet {
    type V = Set<Tag>;

    closed spec fn view(&self) -> Set<Tag> {
        self.tags@.to_set()
    }
}

impl TagSet {
    /// The set holding exactly the given tags.
    pub fn new(tags: &[Tag]) -> (r: TagSet)
        ensures
            r@ == tags@.to_set(),
    {
        let mut v: Vec<Tag> = Vec::new();
        let mut i: usize = 0;
        while i < tags.len()
            invariant
                i <= tags@.len(),
                v@ == tags@.subrange(0, i as int),
            decreases tags@.len() - i,
        {
            v.push(tags[i]);
            i = i + 1;
        }
        assert(v@ =~= tags@);
        TagSet { tags: v }
    }

    /// Whether the set holds `tag`.
    pub fn contains(&self, tag: Tag) -> (r: bool)
        ensures
            r == self@.contains(tag),
    {
        tags_contain(&self.tags, tag)
    }
}

fn tags_contain(tags: &Vec<Tag>, t: Tag) -> (r: bool)
    ensures
        r == tags@.contains(t),
{
    let mut i: usize = 0;
    while i < tags.len()
        invariant
            i <= tags@.len(),
            forall|j: int| 0 <= j < i ==> tags@[j] != t,
        decreases tags@.len() - i,
    {
        if tags[i] == t {
            return true;
        }
        i = i + 1;
    }
    false
}

} // verus!

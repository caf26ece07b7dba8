//! The declarative rule set: per-tag-name and per-class actions, global
//! normalization flags, and the rule-resolution protocol.
//!
//! Resolution order for an element: the tag-name rule first, then the class
//! rules in order of appearance of the class tokens. The first rule found
//! decides, and a found `Enter` terminates resolution (it is not transparent).

use vstd::prelude::*;

use crate::chars::{char_is_whitespace, is_ws_char};
use crate::tree::{Document, Node};

verus! {

/// A replacement-token provider for `FunctionNormalize` rules: a small
/// interface with a single method, implemented by consumers that want the
/// replacement string computed from the node.
pub trait Normalizer: Sized {
    /// What `token` returns, as a mathematical function of the node.
    spec fn token_spec(&self, doc: &Document, node: usize) -> Seq<char>;

    /// Compute the replacement token for `node`.
    fn token(&self, doc: &Document, node: usize) -> (r: String)
        requires
            node < doc.nodes.len(),
        ensures
            r@ == self.token_spec(doc, node),
    ;
}

/// A normalizer that replaces an element by its own tag name.
pub struct TagNameNormalizer;

impl Normalizer for TagNameNormalizer {
    open spec fn token_spec(&self, doc: &Document, node: usize) -> Seq<char> {
        match doc.nodes[node as int] {
            Node::Element { name, .. } => name@,
            Node::Text { .. } => Seq::empty(),
        }
    }

    fn token(&self, doc: &Document, node: usize) -> (r: String) {
        match &doc.nodes[node] {
            Node::Element { name, .. } => name.clone(),
            Node::Text { .. } => String::new(),
        }
    }
}

/// Specifies how to deal with a certain tag.
pub enum SpecialTagsOption<N: Normalizer> {
    /// Recurse into the tag (the default behaviour).
    Enter,
    /// Replace the whole subtree by a fixed token; do not descend.
    Normalize(String),
    /// Replace the whole subtree by a token computed from the node; do not
    /// descend.
    FunctionNormalize(N),
    /// Emit nothing for the whole subtree; do not descend.
    Skip,
}

/// Parameters for the DNM generation.
pub struct DNMParameters<N: Normalizer> {
    /// How to deal with special tag names, first match wins.
    pub special_tag_name_options: Vec<(String, SpecialTagsOption<N>)>,
    /// How to deal with special class names, first match wins. If both a tag
    /// name and a class match, the tag-name rule is applied.
    pub special_tag_class_options: Vec<(String, SpecialTagsOption<N>)>,
    /// Merge whitespace runs into a single ASCII space. Does not affect
    /// normalization tokens.
    pub normalize_white_spaces: bool,
    /// Put spaces before and after normalization tokens.
    pub wrap_tokens: bool,
    /// Keep a trailing space out of a node's recorded range, and a leading
    /// collapsed space out of a text node's. Requires `normalize_white_spaces`.
    pub move_whitespaces_between_nodes: bool,
    /// Fold each text node's content to its ASCII approximation.
    pub normalize_unicode: bool,
}

impl<N: Normalizer> DNMParameters<N> {
    /// The configuration is coherent: boundary-whitespace migration only
    /// together with whitespace collapsing.
    pub open spec fn wf(self) -> bool {
        self.move_whitespaces_between_nodes ==> self.normalize_white_spaces
    }
}

impl<N: Normalizer> Default for DNMParameters<N> {
    /// Nothing special or fancy by default.
    fn default() -> (r: Self)
        ensures
            r.special_tag_name_options@.len() == 0,
            r.special_tag_class_options@.len() == 0,
            r.normalize_white_spaces,
            !r.wrap_tokens,
            !r.move_whitespaces_between_nodes,
            !r.normalize_unicode,
            r.wf(),
    {
        DNMParameters {
            special_tag_name_options: Vec::new(),
            special_tag_class_options: Vec::new(),
            normalize_white_spaces: true,
            wrap_tokens: false,
            move_whitespaces_between_nodes: false,
            normalize_unicode: false,
        }
    }
}

impl<N: Normalizer> DNMParameters<N> {
    /// Normalize in a reasonable way for mathematical documents: math,
    /// citations and equations become fixed placeholder tokens; tables,
    /// heads, notes and bibliographies are skipped; whitespace is collapsed,
    /// boundary whitespace migrated, and Unicode folded to ASCII.
    pub fn llamapun_normalization() -> (r: Self)
        ensures
            r.special_tag_name_options@.len() == 4,
            r.special_tag_name_options@[0].0@ == "math"@,
            (r.special_tag_name_options@[0].1 matches SpecialTagsOption::Normalize(t)
                && t@ == "MathFormula"@),
            r.special_tag_name_options@[1].0@ == "cite"@,
            (r.special_tag_name_options@[1].1 matches SpecialTagsOption::Normalize(t)
                && t@ == "CiteExpression"@),
            r.special_tag_name_options@[2].0@ == "table"@,
            r.special_tag_name_options@[2].1 is Skip,
            r.special_tag_name_options@[3].0@ == "head"@,
            r.special_tag_name_options@[3].1 is Skip,
            r.special_tag_class_options@.len() == 5,
            r.special_tag_class_options@[0].0@ == "ltx_equation"@,
            (r.special_tag_class_options@[0].1 matches SpecialTagsOption::Normalize(t)
                && t@ == "MathFormula"@),
            r.special_tag_class_options@[1].0@ == "ltx_equationgroup"@,
            (r.special_tag_class_options@[1].1 matches SpecialTagsOption::Normalize(t)
                && t@ == "MathFormula"@),
            r.special_tag_class_options@[2].0@ == "ltx_note_mark"@,
            r.special_tag_class_options@[2].1 is Skip,
            r.special_tag_class_options@[3].0@ == "ltx_note_outer"@,
            r.special_tag_class_options@[3].1 is Skip,
            r.special_tag_class_options@[4].0@ == "ltx_bibliography"@,
            r.special_tag_class_options@[4].1 is Skip,
            r.normalize_white_spaces,
            !r.wrap_tokens,
            r.move_whitespaces_between_nodes,
            r.normalize_unicode,
            r.wf(),
    {
        let mut name_options: Vec<(String, SpecialTagsOption<N>)> = Vec::new();
        name_options.push(
            ("math".to_owned(), SpecialTagsOption::Normalize("MathFormula".to_owned())),
        );
        name_options.push(
            ("cite".to_owned(), SpecialTagsOption::Normalize("CiteExpression".to_owned())),
        );
        name_options.push(("table".to_owned(), SpecialTagsOption::Skip));
        name_options.push(("head".to_owned(), SpecialTagsOption::Skip));
        let mut class_options: Vec<(String, SpecialTagsOption<N>)> = Vec::new();
        class_options.push(
            ("ltx_equation".to_owned(), SpecialTagsOption::Normalize("MathFormula".to_owned())),
        );
        class_options.push(
            (
                "ltx_equationgroup".to_owned(),
                SpecialTagsOption::Normalize("MathFormula".to_owned()),
            ),
        );
        class_options.push(("ltx_note_mark".to_owned(), SpecialTagsOption::Skip));
        class_options.push(("ltx_note_outer".to_owned(), SpecialTagsOption::Skip));
        class_options.push(("ltx_bibliography".to_owned(), SpecialTagsOption::Skip));
        DNMParameters {
            special_tag_name_options: name_options,
            special_tag_class_options: class_options,
            normalize_white_spaces: true,
            wrap_tokens: false,
            move_whitespaces_between_nodes: true,
            normalize_unicode: true,
        }
    }
}

/// The first rule listed under `key`, if any.
pub open spec fn lookup_rule<N: Normalizer>(
    rules: Seq<(String, SpecialTagsOption<N>)>,
    key: Seq<char>,
) -> Option<SpecialTagsOption<N>>
    decreases rules.len(),
{
    if rules.len() == 0 {
        None
    } else if rules[0].0@ == key {
        Some(rules[0].1)
    } else {
        lookup_rule(rules.drop_first(), key)
    }
}

/// Find the first rule listed under `key`.
pub fn find_rule<'a, N: Normalizer>(
    rules: &'a Vec<(String, SpecialTagsOption<N>)>,
    key: &String,
) -> (r: Option<&'a SpecialTagsOption<N>>)
    ensures
        match r {
            Some(opt) => lookup_rule(rules@, key@) == Some(*opt),
            None => lookup_rule(rules@, key@) is None,
        },
{
    let n = rules.len();
    let mut i: usize = 0;
    proof {
        assert(rules@.skip(0) =~= rules@);
    }
    while i < n
        invariant
            i <= n,
            n == rules@.len(),
            lookup_rule(rules@, key@) == lookup_rule(rules@.skip(i as int), key@),
        decreases n - i,
    {
        proof {
            assert(rules@.skip(i as int).drop_first() =~= rules@.skip(i as int + 1));
            assert(rules@.skip(i as int)[0] == rules@[i as int]);
        }
        if rules[i].0 == *key {
            return Some(&rules[i].1);
        }
        i += 1;
    }
    proof {
        assert(rules@.skip(n as int).len() == 0);
    }
    None
}

/// State of the class-attribute splitter after some prefix of the attribute:
/// the token being gathered and the tokens already complete.
pub struct SplitState {
    /// The (possibly empty) token under construction.
    pub cur: Seq<char>,
    /// The complete tokens so far.
    pub toks: Seq<Seq<char>>,
}

/// One splitting step.
pub open spec fn split_step(st: SplitState, c: char) -> SplitState {
    if is_ws_char(c) {
        SplitState {
            cur: Seq::empty(),
            toks: if st.cur.len() > 0 {
                st.toks.push(st.cur)
            } else {
                st.toks
            },
        }
    } else {
        SplitState { cur: st.cur.push(c), toks: st.toks }
    }
}

/// The splitter's state after the first `i` characters of `s`.
pub open spec fn split_upto(s: Seq<char>, i: int) -> SplitState
    decreases i,
{
    if i <= 0 {
        SplitState { cur: Seq::empty(), toks: Seq::empty() }
    } else {
        split_step(split_upto(s, i - 1), s[i - 1])
    }
}

/// The class tokens of a class attribute: maximal runs of non-whitespace,
/// in order; empty tokens are discarded.
pub open spec fn split_ws(s: Seq<char>) -> Seq<Seq<char>> {
    let st = split_upto(s, s.len() as int);
    if st.cur.len() > 0 {
        st.toks.push(st.cur)
    } else {
        st.toks
    }
}

/// Split a class attribute into its class tokens.
pub fn class_tokens(attr: &String) -> (r: Vec<String>)
    ensures
        r.deep_view() == split_ws(attr@),
{
    let n = attr.as_str().unicode_len();
    let mut out: Vec<String> = Vec::new();
    let mut tok_start: usize = 0;
    let mut in_tok: bool = false;
    let mut i: usize = 0;
    while i < n
        invariant
            i <= n,
            n == attr@.len(),
            out.deep_view() == split_upto(attr@, i as int).toks,
            in_tok ==> tok_start < i && split_upto(attr@, i as int).cur == attr@.subrange(
                tok_start as int,
                i as int,
            ),
            !in_tok ==> split_upto(attr@, i as int).cur == Seq::<char>::empty(),
        decreases n - i,
    {
        let c = attr.as_str().get_char(i);
        if char_is_whitespace(c) {
            if in_tok {
                let tok = attr.as_str().substring_char(tok_start, i).to_owned();
                out.push(tok);
                in_tok = false;
                proof {
                    assert(out.deep_view() =~= split_upto(attr@, i as int + 1).toks);
                }
            }
        } else {
            if !in_tok {
                tok_start = i;
                in_tok = true;
            }
            proof {
                assert(attr@.subrange(tok_start as int, i as int + 1) =~= attr@.subrange(
                    tok_start as int,
                    i as int,
                ).push(attr@[i as int]));
            }
        }
        i += 1;
    }
    if in_tok {
        let tok = attr.as_str().substring_char(tok_start, n).to_owned();
        out.push(tok);
        proof {
            assert(out.deep_view() =~= split_ws(attr@));
        }
    }
    proof {
        assert(out.deep_view() =~= split_ws(attr@));
    }
    out
}

/// What rule resolution decided for a node.
pub enum Resolution {
    /// Recurse into the children.
    Enter,
    /// Replace the whole subtree by this token.
    Emit(Seq<char>),
    /// Emit nothing and do not descend.
    Skip,
}

/// The decision a single found rule makes.
pub open spec fn decide<N: Normalizer>(
    doc: &Document,
    node: usize,
    opt: SpecialTagsOption<N>,
) -> Resolution {
    match opt {
        SpecialTagsOption::Enter => Resolution::Enter,
        SpecialTagsOption::Normalize(tok) => Resolution::Emit(tok@),
        SpecialTagsOption::FunctionNormalize(f) => Resolution::Emit(f.token_spec(doc, node)),
        SpecialTagsOption::Skip => Resolution::Skip,
    }
}

/// Resolution over the class candidates, in order; the first class with a
/// rule decides.
pub open spec fn resolve_classes<N: Normalizer>(
    doc: &Document,
    rules: Seq<(String, SpecialTagsOption<N>)>,
    node: usize,
    classes: Seq<Seq<char>>,
) -> Resolution
    decreases classes.len(),
{
    if classes.len() == 0 {
        Resolution::Enter
    } else {
        match lookup_rule(rules, classes[0]) {
            Some(opt) => decide(doc, node, opt),
            None => resolve_classes(doc, rules, node, classes.drop_first()),
        }
    }
}

/// The rule-resolution protocol for an element node: the tag-name rule if
/// present, else the first class token with a rule; no match means `Enter`.
pub open spec fn resolve<N: Normalizer>(
    doc: &Document,
    params: &DNMParameters<N>,
    node: usize,
) -> Resolution {
    match doc.nodes[node as int] {
        Node::Text { .. } => Resolution::Enter,
        Node::Element { name, class_attr, .. } => match lookup_rule(
            params.special_tag_name_options@,
            name@,
        ) {
            Some(opt) => decide(doc, node, opt),
            None => resolve_classes(
                doc,
                params.special_tag_class_options@,
                node,
                split_ws(class_attr@),
            ),
        },
    }
}

/// The action the builder takes for an element, with the replacement token
/// already computed.
pub enum Step {
    /// Recurse into the children.
    Recurse,
    /// Emit this token for the whole subtree.
    Emit(String),
    /// Emit nothing for the whole subtree.
    Omit,
}

/// Resolve the rule for an element node and compute its token if any.
pub fn resolve_node<N: Normalizer>(doc: &Document, params: &DNMParameters<N>, node: usize) -> (r:
    Step)
    requires
        node < doc.nodes.len(),
        doc.nodes[node as int] is Element,
    ensures
        match r {
            Step::Recurse => resolve(doc, params, node) == Resolution::Enter,
            Step::Emit(tok) => resolve(doc, params, node) == Resolution::Emit(tok@),
            Step::Omit => resolve(doc, params, node) == Resolution::Skip,
        },
{
    let (name, class_attr) = match &doc.nodes[node] {
        Node::Element { name, class_attr, .. } => (name, class_attr),
        Node::Text { .. } => {
            unreached()
        },
    };
    if let Some(opt) = find_rule(&params.special_tag_name_options, name) {
        return step_of_rule(doc, node, opt);
    }
    let classes = class_tokens(class_attr);
    let ghost all = split_ws(class_attr@);
    let mut i: usize = 0;
    proof {
        assert(all.skip(0) =~= all);
    }
    while i < classes.len()
        invariant
            i <= classes@.len(),
            classes.deep_view() == all,
            node < doc.nodes.len(),
            resolve(doc, params, node) == resolve_classes(
                doc,
                params.special_tag_class_options@,
                node,
                all.skip(i as int),
            ),
        decreases classes@.len() - i,
    {
        proof {
            assert(all.skip(i as int).drop_first() =~= all.skip(i as int + 1));
            assert(all.skip(i as int)[0] == classes.deep_view()[i as int]);
            assert(classes.deep_view()[i as int] == classes@[i as int]@);
        }
        if let Some(opt) = find_rule(&params.special_tag_class_options, &classes[i]) {
            return step_of_rule(doc, node, opt);
        }
        i += 1;
    }
    proof {
        assert(all.skip(classes@.len() as int).len() == 0);
    }
    Step::Recurse
}

/// Turn a found rule into the builder's step, computing the token of a
/// `FunctionNormalize` rule.
fn step_of_rule<N: Normalizer>(doc: &Document, node: usize, opt: &SpecialTagsOption<N>) -> (r: Step)
    requires
        node < doc.nodes.len(),
    ensures
        match r {
            Step::Recurse => decide(doc, node, *opt) == Resolution::Enter,
            Step::Emit(tok) => decide(doc, node, *opt) == Resolution::Emit(tok@),
            Step::Omit => decide(doc, node, *opt) == Resolution::Skip,
        },
{
    match opt {
        SpecialTagsOption::Enter => Step::Recurse,
        SpecialTagsOption::Normalize(tok) => Step::Emit(tok.clone()),
        SpecialTagsOption::FunctionNormalize(f) => Step::Emit(f.token(doc, node)),
        SpecialTagsOption::Skip => Step::Omit,
    }
}

} // verus!

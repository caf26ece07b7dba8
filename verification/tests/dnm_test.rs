use dnmlib::dnm::{DnmError, DNM};
use dnmlib::rules::{DNMParameters, SpecialTagsOption, TagNameNormalizer};
use dnmlib::tree::{Document, Node};

fn text(content: &str) -> Node {
    Node::Text { content: content.to_owned() }
}

fn elem(name: &str, class_attr: &str, children: Vec<usize>) -> Node {
    Node::Element { name: name.to_owned(), class_attr: class_attr.to_owned(), children }
}

fn defaults() -> DNMParameters<TagNameNormalizer> {
    Default::default()
}

fn scientific() -> DNMParameters<TagNameNormalizer> {
    DNMParameters::llamapun_normalization()
}

#[test]
fn hello_world_defaults() {
    let doc = Document { nodes: vec![text("Hello  world"), elem("p", "", vec![0])] };
    let dnm = DNM::create_dnm(1, &doc, defaults()).unwrap();
    assert_eq!(dnm.plaintext, "Hello world");
    let p = dnm.get_range_of_node(1).unwrap();
    assert_eq!((p.start, p.end), (0, 11));
    assert_eq!(p.get_plaintext(), "Hello world");
    let t = dnm.get_range_of_node(0).unwrap();
    assert_eq!((t.start, t.end), (0, 11));
}

#[test]
fn scientific_preset_folds_and_normalizes() {
    // <p>α <math>…</math> β</p> with the scientific preset
    let doc = Document {
        nodes: vec![
            text("\u{3b1} "),
            text("\u{2026}"),
            elem("math", "", vec![1]),
            text(" \u{3b2}"),
            elem("p", "", vec![0, 2, 3]),
        ],
    };
    let dnm = DNM::create_dnm(4, &doc, scientific()).unwrap();
    assert_eq!(dnm.plaintext, "a MathFormula b");
    let math = dnm.get_range_of_node(2).unwrap();
    assert_eq!((math.start, math.end), (2, 13));
    assert_eq!(math.get_plaintext(), "MathFormula");
}

#[test]
fn scientific_preset_skips_note_marks() {
    // <div><span class="ltx_note_mark">1</span>Body</div>
    let doc = Document {
        nodes: vec![
            text("1"),
            elem("span", "ltx_note_mark", vec![0]),
            text("Body"),
            elem("div", "", vec![1, 2]),
        ],
    };
    let dnm = DNM::create_dnm(3, &doc, scientific()).unwrap();
    assert_eq!(dnm.plaintext, "Body");
    let span = dnm.get_range_of_node(1).unwrap();
    assert_eq!((span.start, span.end), (0, 0));
    let div = dnm.get_range_of_node(3).unwrap();
    assert_eq!((div.start, div.end), (0, 4));
    // descendants of a skipped subtree are not indexed
    assert!(dnm.get_range_of_node(0).is_err());
}

#[test]
fn unmatched_span_is_entered() {
    // <p>See <span class="ltx_ref">Section 2</span>.</p> with defaults
    let doc = Document {
        nodes: vec![
            text("See "),
            text("Section 2"),
            elem("span", "ltx_ref", vec![1]),
            text("."),
            elem("p", "", vec![0, 2, 3]),
        ],
    };
    let dnm = DNM::create_dnm(4, &doc, defaults()).unwrap();
    assert_eq!(dnm.plaintext, "See Section 2.");
    let span = dnm.get_range_of_node(2).unwrap();
    assert_eq!((span.start, span.end), (4, 13));
    let trimmed = span.trim();
    assert_eq!((trimmed.start, trimmed.end), (4, 13));
    // sibling ranges are monotone, children sit inside the parent
    let p = dnm.get_range_of_node(4).unwrap();
    let first = dnm.get_range_of_node(0).unwrap();
    let last = dnm.get_range_of_node(3).unwrap();
    assert_eq!((first.start, first.end), (0, 4));
    assert_eq!((last.start, last.end), (13, 14));
    assert!(first.end <= span.start && span.end <= last.start);
    assert!(p.start <= first.start && last.end <= p.end);
}

#[test]
fn boundary_whitespace_migration() {
    // <p> leading   and trailing </p>
    let mut params = defaults();
    params.normalize_white_spaces = true;
    params.move_whitespaces_between_nodes = true;
    let doc = Document { nodes: vec![text(" leading   and trailing "), elem("p", "", vec![0])] };
    let dnm = DNM::create_dnm(1, &doc, params).unwrap();
    let t = dnm.get_range_of_node(0).unwrap();
    assert_eq!(t.get_plaintext(), "leading and trailing");
    assert_eq!((t.start, t.end), (0, 20));
    let p = dnm.get_range_of_node(1).unwrap();
    assert_eq!(p.get_plaintext(), "leading and trailing");
}

#[test]
fn wrap_tokens_spaces_the_token() {
    // <p>x<math/>y</p> with wrap_tokens
    let mut params = defaults();
    params
        .special_tag_name_options
        .push(("math".to_owned(), SpecialTagsOption::Normalize("MathFormula".to_owned())));
    params.wrap_tokens = true;
    let doc = Document {
        nodes: vec![text("x"), elem("math", "", vec![]), text("y"), elem("p", "", vec![0, 1, 2])],
    };
    let dnm = DNM::create_dnm(3, &doc, params).unwrap();
    assert_eq!(dnm.plaintext, "x MathFormula y");
}

#[test]
fn name_rule_dominates_class_rule() {
    // the tag-name rule is found first and Enter terminates resolution
    let mut params = defaults();
    params.special_tag_name_options.push(("span".to_owned(), SpecialTagsOption::Enter));
    params.special_tag_class_options.push(("ltx_note_mark".to_owned(), SpecialTagsOption::Skip));
    let doc = Document {
        nodes: vec![text("kept"), elem("span", "ltx_note_mark", vec![0]), elem("div", "", vec![1])],
    };
    let dnm = DNM::create_dnm(2, &doc, params).unwrap();
    assert_eq!(dnm.plaintext, "kept");
}

#[test]
fn first_class_token_with_a_rule_decides() {
    let mut params = defaults();
    params
        .special_tag_class_options
        .push(("b".to_owned(), SpecialTagsOption::Normalize("B".to_owned())));
    params
        .special_tag_class_options
        .push(("a".to_owned(), SpecialTagsOption::Normalize("A".to_owned())));
    let doc = Document { nodes: vec![text("ignored"), elem("span", " a  b ", vec![0])] };
    let dnm = DNM::create_dnm(1, &doc, params).unwrap();
    assert_eq!(dnm.plaintext, "A");
}

#[test]
fn empty_class_tokens_are_discarded() {
    let mut params = defaults();
    params
        .special_tag_class_options
        .push(("".to_owned(), SpecialTagsOption::Normalize("X".to_owned())));
    let doc = Document { nodes: vec![text("body"), elem("span", "   ", vec![0])] };
    let dnm = DNM::create_dnm(1, &doc, params).unwrap();
    assert_eq!(dnm.plaintext, "body");
}

#[test]
fn function_normalize_computes_the_token() {
    let mut params = defaults();
    params
        .special_tag_name_options
        .push(("math".to_owned(), SpecialTagsOption::FunctionNormalize(TagNameNormalizer)));
    let doc = Document {
        nodes: vec![text("x "), elem("math", "", vec![]), elem("p", "", vec![0, 1])],
    };
    let dnm = DNM::create_dnm(2, &doc, params).unwrap();
    assert_eq!(dnm.plaintext, "x math");
}

#[test]
fn invalid_configuration_is_rejected() {
    let mut params = defaults();
    params.normalize_white_spaces = false;
    params.move_whitespaces_between_nodes = true;
    let doc = Document { nodes: vec![text("x")] };
    match DNM::create_dnm(0, &doc, params) {
        Err(e) => assert_eq!(e, DnmError::InvalidConfiguration),
        Ok(_) => panic!("expected the configuration to be rejected"),
    }
}

#[test]
fn unindexed_node_is_not_found() {
    let doc = Document { nodes: vec![text("x"), elem("p", "", vec![0]), text("unreached")] };
    let dnm = DNM::create_dnm(1, &doc, defaults()).unwrap();
    match dnm.get_range_of_node(2) {
        Err(e) => assert_eq!(e, DnmError::NotFound),
        Ok(_) => panic!("node outside the built subtree must not be indexed"),
    }
}

#[test]
fn no_collapsing_keeps_text_verbatim() {
    let mut params = defaults();
    params.normalize_white_spaces = false;
    let doc = Document { nodes: vec![text("a  b "), elem("p", "", vec![0])] };
    let dnm = DNM::create_dnm(1, &doc, params).unwrap();
    assert_eq!(dnm.plaintext, "a  b ");
}

#[test]
fn collapse_leaves_no_double_space() {
    let doc = Document {
        nodes: vec![
            text("  a \t\n b"),
            text("   c"),
            elem("p", "", vec![0, 1]),
        ],
    };
    let dnm = DNM::create_dnm(2, &doc, defaults()).unwrap();
    assert_eq!(dnm.plaintext, "a b c");
    assert!(!dnm.plaintext.contains("  "));
    assert!(!dnm.plaintext.starts_with(' '));
}

#[test]
fn trim_is_idempotent_at_runtime() {
    let doc = Document { nodes: vec![text("  padded value  x"), elem("p", "", vec![0])] };
    let dnm = DNM::create_dnm(1, &doc, defaults()).unwrap();
    // the collapsed plaintext is "padded value x"; take a sub-range with
    // whitespace on both sides
    let p = dnm.get_range_of_node(1).unwrap();
    let mut r = p.clone();
    r.start = 6;
    r.end = 13;
    assert_eq!(r.get_plaintext(), " value ");
    let once = r.trim();
    assert_eq!(once.get_plaintext(), "value");
    let twice = once.trim();
    assert_eq!((once.start, once.end), (twice.start, twice.end));
}

#[test]
fn trim_of_whitespace_only_range_is_a_valid_empty_range() {
    let mut params = defaults();
    params.normalize_white_spaces = false;
    let doc = Document { nodes: vec![text("a   b"), elem("p", "", vec![0])] };
    let dnm = DNM::create_dnm(1, &doc, params).unwrap();
    let p = dnm.get_range_of_node(1).unwrap();
    let mut r = p.clone();
    r.start = 1;
    r.end = 4;
    assert_eq!(r.get_plaintext(), "   ");
    let trimmed = r.trim();
    assert!(trimmed.start <= trimmed.end);
    assert_eq!((trimmed.start, trimmed.end), (4, 4));
    assert_eq!(trimmed.get_plaintext(), "");
    let twice = trimmed.trim();
    assert_eq!((twice.start, twice.end), (4, 4));
}

#[test]
fn truncate_drops_trailing_whitespace_only() {
    let mut params = defaults();
    params.normalize_white_spaces = false;
    let doc = Document { nodes: vec![text("  keep me \t "), elem("p", "", vec![0])] };
    let dnm = DNM::create_dnm(1, &doc, params).unwrap();
    let p = dnm.get_range_of_node(1).unwrap();
    assert_eq!(p.get_plaintext_truncated(), "  keep me");
}

#[test]
fn preset_flags_are_set() {
    let params = scientific();
    assert!(params.normalize_white_spaces);
    assert!(!params.wrap_tokens);
    assert!(params.move_whitespaces_between_nodes);
    assert!(params.normalize_unicode);
    assert_eq!(params.special_tag_name_options.len(), 4);
    assert_eq!(params.special_tag_class_options.len(), 5);
}

#[test]
fn skipped_subtree_contributes_nothing_to_ancestors() {
    // a deep skipped subtree under the scientific preset: the table and all
    // of its content vanish, the ancestors' text is unaffected
    let doc = Document {
        nodes: vec![
            text("cell"),
            elem("td", "", vec![0]),
            elem("table", "", vec![1]),
            text("before "),
            text("after"),
            elem("div", "", vec![3, 2, 4]),
        ],
    };
    let dnm = DNM::create_dnm(5, &doc, scientific()).unwrap();
    assert_eq!(dnm.plaintext, "before after");
    let table = dnm.get_range_of_node(2).unwrap();
    assert_eq!(table.start, table.end);
}

//! The DNM itself and its builder: a depth-first walk over a document that
//! emits plaintext and records, for every visited node, a half-open
//! character range into it.

use vstd::prelude::*;

use std::collections::HashMap;

use crate::chars::{char_is_whitespace, is_ws_char, no_double_space, push_char, ws_free,
    ws_is_space};
use crate::fold::{ascii_fold, fold_to_ascii};
use crate::range::DNMRange;
use crate::rules::{resolve, resolve_node, DNMParameters, Normalizer, Resolution, Step};
use crate::tree::{Document, Node};
use vstd::string::StrSliceExecFns;
use vstd::string::StringExecFns;

verus! {

broadcast use vstd::std_specs::hash::group_hash_axioms;

/// State of the whitespace-collapsing emitter inside one text node: what it
/// emitted, whether the last emitted character overall is whitespace, how
/// many leading collapsed spaces were migrated out of the node's range, and
/// whether the node is still in its leading-whitespace phase.
pub struct ScanState {
    /// Characters emitted so far for this text node.
    pub emitted: Seq<char>,
    /// The last character of the whole plaintext is whitespace.
    pub had_ws: bool,
    /// How far the node's recorded start was advanced.
    pub lead: nat,
    /// No non-whitespace character of this node was emitted yet.
    pub leading: bool,
}

/// One collapsing step over one character.
pub open spec fn scan_step(migrate: bool, st: ScanState, c: char) -> ScanState {
    if is_ws_char(c) {
        if st.had_ws {
            st
        } else {
            ScanState {
                emitted: st.emitted.push(' '),
                had_ws: true,
                lead: if migrate && st.leading {
                    st.lead + 1
                } else {
                    st.lead
                },
                leading: st.leading,
            }
        }
    } else {
        ScanState { emitted: st.emitted.push(c), had_ws: false, lead: st.lead, leading: false }
    }
}

/// The emitter's state after the first `i` characters of `s`, having entered
/// the node with whitespace flag `w0`.
pub open spec fn scan_upto(migrate: bool, s: Seq<char>, i: int, w0: bool) -> ScanState
    decreases i,
{
    if i <= 0 {
        ScanState { emitted: Seq::empty(), had_ws: w0, lead: 0, leading: true }
    } else {
        scan_step(migrate, scan_upto(migrate, s, i - 1, w0), s[i - 1])
    }
}

/// The emitter's state after a whole text node's content.
pub open spec fn scan_text(migrate: bool, s: Seq<char>, w0: bool) -> ScanState {
    scan_upto(migrate, s, s.len() as int, w0)
}

/// The migrated lead never exceeds what was emitted, and a migrated lead in
/// the leading phase implies the whitespace flag.
pub proof fn lemma_scan_shape(migrate: bool, s: Seq<char>, i: int, w0: bool)
    ensures
        scan_upto(migrate, s, i, w0).lead <= scan_upto(migrate, s, i, w0).emitted.len(),
        scan_upto(migrate, s, i, w0).lead <= 1,
        (scan_upto(migrate, s, i, w0).leading && scan_upto(migrate, s, i, w0).lead > 0)
            ==> scan_upto(migrate, s, i, w0).had_ws,
    decreases i,
{
    if i > 0 {
        lemma_scan_shape(migrate, s, i - 1, w0);
    }
}

/// What a text node's content looks like to the builder: folded to ASCII
/// when the parameters say so.
pub open spec fn folded<N: Normalizer>(params: &DNMParameters<N>, content: Seq<char>) -> Seq<
    char,
> {
    if params.normalize_unicode {
        ascii_fold(content)
    } else {
        content
    }
}

/// The recorded end of a node's range: under boundary migration a trailing
/// whitespace character is left out.
pub open spec fn entry_end(migrate: bool, start: int, len: int, had_ws: bool) -> int {
    if migrate && len > start && had_ws {
        len - 1
    } else {
        len
    }
}

/// What a `Normalize` or `FunctionNormalize` rule emits for its token.
pub open spec fn emit_token(tok: Seq<char>, wrap: bool, collapse: bool, w0: bool) -> Seq<char> {
    if wrap {
        (if !w0 || !collapse {
            seq![' ']
        } else {
            Seq::empty()
        }) + tok + seq![' ']
    } else {
        tok
    }
}

/// Every replacement token resolved inside the subtree of `root` is nonempty
/// and free of whitespace.
pub open spec fn tokens_ok<N: Normalizer>(
    doc: &Document,
    params: &DNMParameters<N>,
    root: usize,
) -> bool {
    forall|n: usize|
        n < doc.nodes.len() && doc.in_subtree(root, n) && doc.nodes[n as int] is Element ==> match #[trigger] resolve(
            doc,
            params,
            n,
        ) {
            Resolution::Emit(t) => t.len() > 0 && ws_free(t),
            _ => true,
        }
}

/// Every replacement token resolved inside the subtree of `root` is free
/// of whitespace (it may be empty). Weaker than `tokens_ok`: enough for
/// all plaintext whitespace to be a single ASCII space, though not for the
/// no-double-space law.
pub open spec fn tokens_ws_free<N: Normalizer>(
    doc: &Document,
    params: &DNMParameters<N>,
    root: usize,
) -> bool {
    forall|n: usize|
        n < doc.nodes.len() && doc.in_subtree(root, n) && doc.nodes[n as int] is Element ==> match #[trigger] resolve(
            doc,
            params,
            n,
        ) {
            Resolution::Emit(t) => ws_free(t),
            _ => true,
        }
}

/// Appending a character that is a space whenever it is whitespace keeps
/// all whitespace a single ASCII space.
proof fn lemma_ws_space_push(t: Seq<char>, c: char)
    requires
        ws_is_space(t),
        is_ws_char(c) ==> c == ' ',
    ensures
        ws_is_space(t.push(c)),
{
    assert forall|i: int| 0 <= i < t.push(c).len() && is_ws_char(#[trigger] t.push(c)[i]) implies t
        .push(c)[i] == ' ' by {
        if i < t.len() {
            assert(t.push(c)[i] == t[i]);
        } else {
            assert(t.push(c)[i] == c);
        }
    }
}

/// Emitting a whitespace-free token, wrapped or not, keeps all whitespace
/// a single ASCII space.
proof fn lemma_ws_space_emit(t: Seq<char>, tok: Seq<char>, wrap: bool, collapse: bool, w0: bool)
    requires
        ws_is_space(t),
        ws_free(tok),
    ensures
        ws_is_space(t + emit_token(tok, wrap, collapse, w0)),
{
    let em = emit_token(tok, wrap, collapse, w0);
    let u = t + em;
    let lead: int = if wrap && (!w0 || !collapse) {
        1
    } else {
        0
    };
    assert forall|i: int| 0 <= i < u.len() && is_ws_char(#[trigger] u[i]) implies u[i] == ' ' by {
        if i < t.len() {
            assert(u[i] == t[i]);
        } else if wrap {
            let j = i - t.len();
            if j < lead {
                assert(u[i] == ' ');
            } else if j < lead + tok.len() {
                assert(u[i] == tok[j - lead]);
            } else {
                assert(u[i] == ' ');
            }
        } else {
            assert(u[i] == tok[i - t.len()]);
        }
    }
}

/// The collapsed-plaintext invariant: all whitespace is a single ASCII
/// space, never doubled, never leading, and a cleared whitespace flag means
/// the text ends in non-whitespace.
pub open spec fn clean(t: Seq<char>, w: bool) -> bool {
    &&& ws_is_space(t)
    &&& no_double_space(t)
    &&& (t.len() > 0 ==> t[0] != ' ')
    &&& (!w ==> t.len() > 0 && !is_ws_char(t.last()))
}

/// A set whitespace flag means the text is empty or ends in a space. Under
/// collapsing this holds whatever the rule set does.
pub open spec fn flag_pos(t: Seq<char>, w: bool) -> bool {
    w ==> t.len() == 0 || t.last() == ' '
}

/// The child listed at position `j` under node `p`.
pub open spec fn child_at(doc: Document, p: usize, j: int) -> usize {
    doc.nodes[p as int].spec_children()[j]
}

/// The slack that boundary migration allows on a containment check.
pub open spec fn migrate_slack(migrate: bool) -> int {
    if migrate {
        1
    } else {
        0
    }
}

/// The structural laws of a node index: a child's range sits inside its
/// parent's (up to one migrated trailing space), and ranges of adjacent
/// siblings do not overlap.
pub open spec fn map_laws(doc: Document, m: Map<usize, (usize, usize)>, migrate: bool) -> bool {
    &&& forall|p: usize, j: int|
        m.contains_key(p) && p < doc.nodes.len() && 0 <= j
            < doc.nodes[p as int].spec_children().len() && m.contains_key(
            #[trigger] child_at(doc, p, j),
        ) ==> (m[p].0 <= m[child_at(doc, p, j)].0 && m[child_at(doc, p, j)].1 <= m[p].1
            + migrate_slack(migrate))
    &&& forall|p: usize, j: int|
        m.contains_key(p) && p < doc.nodes.len() && 0 <= j && j + 1
            < doc.nodes[p as int].spec_children().len() && m.contains_key(
            #[trigger] child_at(doc, p, j),
        )
            && m.contains_key(child_at(doc, p, j + 1))
            ==> m[child_at(doc, p, j)].1 <= m[child_at(doc, p, j + 1)].0
}

/// Positional facts about one recorded entry, stable as the plaintext grows
/// by appending: a skipped node records an empty range; a normalized node's
/// token stands in the plaintext where its range says, wrapped in spaces
/// when wrapping is on; a text node's emission stands at its range.
pub open spec fn entry_ok<N: Normalizer>(
    doc: &Document,
    params: &DNMParameters<N>,
    k: usize,
    e: (usize, usize),
    t: Seq<char>,
) -> bool {
    &&& k < doc.nodes.len()
    &&& e.0 <= e.1 <= t.len()
    &&& match doc.nodes[k as int] {
        Node::Text { content } => {
            let f = folded(params, content@);
            if params.normalize_white_spaces {
                exists|w: bool|
                    {
                        let st = #[trigger] scan_text(
                            params.move_whitespaces_between_nodes,
                            f,
                            w,
                        );
                        &&& st.lead <= e.0
                        &&& e.0 - st.lead + st.emitted.len() <= t.len()
                        &&& t.subrange(e.0 - st.lead, e.0 - st.lead + st.emitted.len())
                            == st.emitted
                        &&& e.1 == entry_end(
                            params.move_whitespaces_between_nodes,
                            e.0 as int,
                            e.0 - st.lead + st.emitted.len(),
                            st.had_ws,
                        )
                    }
            } else {
                &&& e.0 + f.len() <= t.len()
                &&& t.subrange(e.0 as int, e.0 + f.len()) == f
                &&& e.1 == e.0 + f.len()
            }
        },
        Node::Element { .. } => match resolve(doc, params, k) {
            Resolution::Enter => true,
            Resolution::Skip => e.0 == e.1,
            Resolution::Emit(tok) => {
                if params.wrap_tokens {
                    exists|lead: int|
                        {
                            &&& (lead == 0 || lead == 1)
                            &&& e.0 + lead + tok.len() + 1 <= t.len()
                            &&& #[trigger] t.subrange(e.0 + lead, e.0 + lead + tok.len()) == tok
                            &&& (lead == 1 ==> t[e.0 as int] == ' ')
                            &&& (lead == 0 ==> e.0 == 0 || t[e.0 - 1] == ' ')
                            &&& t[e.0 + lead + tok.len()] == ' '
                        }
                } else {
                    &&& e.0 + tok.len() <= t.len()
                    &&& t.subrange(e.0 as int, e.0 + tok.len()) == tok
                    &&& e.1 == entry_end(
                        params.move_whitespaces_between_nodes,
                        e.0 as int,
                        e.0 + tok.len(),
                        false,
                    )
                }
            },
        },
    }
}

/// What one walk step does, exactly: how the plaintext, the whitespace flag
/// and the node's recorded range after processing `node` relate to the
/// state before.
pub open spec fn node_entry<N: Normalizer>(
    doc: &Document,
    params: &DNMParameters<N>,
    node: usize,
    t0: Seq<char>,
    w0: bool,
    t1: Seq<char>,
    w1: bool,
    e: (usize, usize),
) -> bool {
    let migrate = params.move_whitespaces_between_nodes;
    match doc.nodes[node as int] {
        Node::Text { content } => {
            let f = folded(params, content@);
            if params.normalize_white_spaces {
                let st = scan_text(migrate, f, w0);
                &&& t1 == t0 + st.emitted
                &&& w1 == st.had_ws
                &&& e.0 as nat == t0.len() + st.lead
                &&& e.1 as int == entry_end(migrate, e.0 as int, t1.len() as int, w1)
            } else {
                &&& t1 == t0 + f
                &&& w1 == w0
                &&& e.0 as nat == t0.len()
                &&& e.1 as nat == t1.len()
            }
        },
        Node::Element { .. } => match resolve(doc, params, node) {
            Resolution::Enter => {
                &&& e.0 as nat == t0.len()
                &&& e.1 as int == entry_end(migrate, e.0 as int, t1.len() as int, w1)
            },
            Resolution::Emit(tok) => {
                &&& t1 == t0 + emit_token(tok, params.wrap_tokens, params.normalize_white_spaces, w0)
                &&& w1 == params.wrap_tokens
                &&& e.0 as nat == t0.len()
                &&& e.1 as int == entry_end(migrate, e.0 as int, t1.len() as int, w1)
            },
            Resolution::Skip => {
                &&& t1 == t0
                &&& w1 == w0
                &&& e.0 as nat == t0.len()
                &&& e.1 as nat == t0.len()
            },
        },
    }
}

/// The entry facts survive appending to the plaintext.
pub proof fn lemma_entry_ok_grow<N: Normalizer>(
    doc: &Document,
    params: &DNMParameters<N>,
    k: usize,
    e: (usize, usize),
    t1: Seq<char>,
    t2: Seq<char>,
)
    requires
        entry_ok(doc, params, k, e, t1),
        t1.len() <= t2.len(),
        t2.subrange(0, t1.len() as int) == t1,
    ensures
        entry_ok(doc, params, k, e, t2),
{
    assert forall|a: int, b: int| 0 <= a <= b <= t1.len() implies t2.subrange(a, b)
        == t1.subrange(a, b) by {
        assert forall|x: int| 0 <= x < t1.len() implies t2[x] == t1[x] by {
            assert(t1[x] == t2.subrange(0, t1.len() as int)[x]);
        }
        assert(t2.subrange(a, b) =~= t1.subrange(a, b));
    }
    assert forall|x: int| 0 <= x < t1.len() implies t2[x] == t1[x] by {
        assert(t1[x] == t2.subrange(0, t1.len() as int)[x]);
    }
    match doc.nodes[k as int] {
        Node::Text { content } => {
            let f = folded(params, content@);
            if params.normalize_white_spaces {
                let w = choose|w: bool|
                    {
                        let st = #[trigger] scan_text(
                            params.move_whitespaces_between_nodes,
                            f,
                            w,
                        );
                        &&& st.lead <= e.0
                        &&& e.0 - st.lead + st.emitted.len() <= t1.len()
                        &&& t1.subrange(e.0 - st.lead, e.0 - st.lead + st.emitted.len())
                            == st.emitted
                        &&& e.1 == entry_end(
                            params.move_whitespaces_between_nodes,
                            e.0 as int,
                            e.0 - st.lead + st.emitted.len(),
                            st.had_ws,
                        )
                    };
                let st = scan_text(params.move_whitespaces_between_nodes, f, w);
                assert(t2.subrange(e.0 - st.lead, e.0 - st.lead + st.emitted.len())
                    == st.emitted);
            }
        },
        Node::Element { .. } => {
            match resolve(doc, params, k) {
                Resolution::Emit(tok) => {
                    if params.wrap_tokens {
                        let lead = choose|lead: int|
                            {
                                &&& (lead == 0 || lead == 1)
                                &&& e.0 + lead + tok.len() + 1 <= t1.len()
                                &&& #[trigger] t1.subrange(e.0 + lead, e.0 + lead + tok.len())
                                    == tok
                                &&& (lead == 1 ==> t1[e.0 as int] == ' ')
                                &&& (lead == 0 ==> e.0 == 0 || t1[e.0 - 1] == ' ')
                                &&& t1[e.0 + lead + tok.len()] == ' '
                            };
                        assert(t2.subrange(e.0 + lead, e.0 + lead + tok.len()) == tok);
                        assert((lead == 0 || lead == 1) && e.0 + lead + tok.len() + 1 <= t2.len()
                            && t2.subrange(e.0 + lead, e.0 + lead + tok.len()) == tok && (lead == 1
                            ==> t2[e.0 as int] == ' ') && (lead == 0 ==> e.0 == 0 || t2[e.0 - 1]
                            == ' ') && t2[e.0 + lead + tok.len()] == ' ');
                    }
                },
                _ => {},
            }
        },
    }
}

/// The ways building or querying a DNM can fail.
#[derive(Clone, Copy, PartialEq, Eq, Debug, Structural)]
pub enum DnmError {
    /// The queried node was not indexed by the build.
    NotFound,
    /// `move_whitespaces_between_nodes` was set without
    /// `normalize_white_spaces`.
    InvalidConfiguration,
}

/// The complete functional model of one walk step: what processing a node
/// emits, the whitespace flag afterwards, and the index entries recorded
/// for the node and (under `Enter`) its descendants, at absolute plaintext
/// positions.
pub struct WalkOut {
    /// The characters this subtree appended to the plaintext.
    pub emitted: Seq<char>,
    /// The whitespace flag after the subtree.
    pub had_ws: bool,
    /// The entries recorded while processing the subtree: exactly one per
    /// visited node, and nothing else.
    pub entries: Map<usize, (nat, nat)>,
}

/// The walk of one node, starting at plaintext position `pos` with
/// whitespace flag `w0`: a text node emits its (folded, possibly collapsed)
/// content; an element resolves its rule, and on `Enter` walks its children
/// left to right, while the other actions suppress descent.
pub open spec fn walk_spec<N: Normalizer>(
    doc: &Document,
    params: &DNMParameters<N>,
    node: usize,
    pos: nat,
    w0: bool,
) -> WalkOut
    decreases node, 1int, 0int,
    when doc.wf() && node < doc.nodes.len()
{
    let migrate = params.move_whitespaces_between_nodes;
    match doc.nodes[node as int] {
        Node::Text { content } => {
            let f = folded(params, content@);
            if params.normalize_white_spaces {
                let st = scan_text(migrate, f, w0);
                let s = pos + st.lead;
                let len1 = pos + st.emitted.len();
                WalkOut {
                    emitted: st.emitted,
                    had_ws: st.had_ws,
                    entries: Map::empty().insert(
                        node,
                        (s, entry_end(migrate, s as int, len1 as int, st.had_ws) as nat),
                    ),
                }
            } else {
                WalkOut {
                    emitted: f,
                    had_ws: w0,
                    entries: Map::empty().insert(node, (pos, (pos + f.len()) as nat)),
                }
            }
        },
        Node::Element { .. } => match resolve(doc, params, node) {
            Resolution::Enter => {
                let ch = walk_children_spec(doc, params, node, 0, pos, w0);
                let len1 = pos + ch.emitted.len();
                WalkOut {
                    emitted: ch.emitted,
                    had_ws: ch.had_ws,
                    entries: ch.entries.insert(
                        node,
                        (pos, entry_end(migrate, pos as int, len1 as int, ch.had_ws) as nat),
                    ),
                }
            },
            Resolution::Emit(tok) => {
                let em = emit_token(tok, params.wrap_tokens, params.normalize_white_spaces, w0);
                let len1 = pos + em.len();
                WalkOut {
                    emitted: em,
                    had_ws: params.wrap_tokens,
                    entries: Map::empty().insert(
                        node,
                        (
                            pos,
                            entry_end(migrate, pos as int, len1 as int, params.wrap_tokens) as nat,
                        ),
                    ),
                }
            },
            Resolution::Skip => WalkOut {
                emitted: Seq::empty(),
                had_ws: w0,
                entries: Map::empty().insert(node, (pos, pos)),
            },
        },
    }
}

/// The walk of the children of `node` from child position `i` on, starting
/// at plaintext position `pos` with whitespace flag `w0`.
pub open spec fn walk_children_spec<N: Normalizer>(
    doc: &Document,
    params: &DNMParameters<N>,
    node: usize,
    i: int,
    pos: nat,
    w0: bool,
) -> WalkOut
    decreases node, 0int, doc.nodes[node as int].spec_children().len() - i,
    when doc.wf() && node < doc.nodes.len() && 0 <= i
{
    let cs = doc.nodes[node as int].spec_children();
    if i >= cs.len() {
        WalkOut { emitted: Seq::empty(), had_ws: w0, entries: Map::empty() }
    } else {
        let first = walk_spec(doc, params, cs[i], pos, w0);
        let rest = walk_children_spec(
            doc,
            params,
            node,
            i + 1,
            pos + first.emitted.len(),
            first.had_ws,
        );
        WalkOut {
            emitted: first.emitted + rest.emitted,
            had_ws: rest.had_ws,
            entries: first.entries.union_prefer_right(rest.entries),
        }
    }
}

/// A prefix of a prefix is a prefix.
proof fn lemma_prefix_trans(a: Seq<char>, b: Seq<char>, c: Seq<char>)
    requires
        a.len() <= b.len() <= c.len(),
        b.subrange(0, a.len() as int) == a,
        c.subrange(0, b.len() as int) == b,
    ensures
        c.subrange(0, a.len() as int) == a,
{
    assert forall|x: int| 0 <= x < b.len() implies c[x] == b[x] by {
        assert(b[x] == c.subrange(0, b.len() as int)[x]);
    }
    assert forall|x: int| 0 <= x < a.len() implies b[x] == a[x] by {
        assert(a[x] == b.subrange(0, a.len() as int)[x]);
    }
    assert(c.subrange(0, a.len() as int) =~= a);
}

/// Appending a space to clean text whose whitespace flag is cleared keeps it
/// clean and sets the flag.
proof fn lemma_clean_push_space(t: Seq<char>, w: bool)
    requires
        clean(t, w),
        !w,
    ensures
        clean(t.push(' '), true),
        flag_pos(t.push(' '), true),
{
    let t1 = t.push(' ');
    assert(t1.last() == ' ');
    assert(t1[0] == t[0]);
    assert forall|i: int| 0 < i < t1.len() implies !(t1[i - 1] == ' ' && #[trigger] t1[i]
        == ' ') by {
        if i == t1.len() - 1 {
            assert(t1[i - 1] == t[i - 1]);
            assert(!is_ws_char(t.last()));
        } else {
            assert(t1[i - 1] == t[i - 1] && t1[i] == t[i]);
        }
    }
}

/// Appending a non-whitespace character to clean text keeps it clean and
/// clears the flag.
proof fn lemma_clean_push_char(t: Seq<char>, w: bool, c: char)
    requires
        clean(t, w),
        flag_pos(t, w),
        !is_ws_char(c),
    ensures
        clean(t.push(c), false),
        flag_pos(t.push(c), false),
{
    let t1 = t.push(c);
    assert(t1.last() == c);
    assert(c != ' ');
    if t.len() > 0 {
        assert(t1[0] == t[0]);
    }
    assert forall|i: int| 0 < i < t1.len() implies !(t1[i - 1] == ' ' && #[trigger] t1[i]
        == ' ') by {
        if i < t1.len() - 1 {
            assert(t1[i - 1] == t[i - 1] && t1[i] == t[i]);
        }
    }
}

/// Emitting a nonempty whitespace-free token, wrapped or not, keeps the
/// plaintext clean, and the whitespace flag ends up true exactly when
/// wrapping.
proof fn lemma_clean_emit(t: Seq<char>, w: bool, tok: Seq<char>, wrap: bool)
    requires
        clean(t, w),
        flag_pos(t, w),
        tok.len() > 0,
        ws_free(tok),
    ensures
        clean(t + emit_token(tok, wrap, true, w), wrap),
        flag_pos(t + emit_token(tok, wrap, true, w), wrap),
    decreases tok.len(),
{
    if tok.len() == 1 {
        let c = tok[0];
        assert(tok =~= Seq::empty().push(c));
        if wrap {
            if !w {
                lemma_clean_push_space(t, w);
                lemma_clean_push_char(t.push(' '), true, c);
                lemma_clean_push_space(t.push(' ').push(c), false);
                assert(t + emit_token(tok, wrap, true, w) =~= t.push(' ').push(c).push(' '));
            } else {
                lemma_clean_push_char(t, w, c);
                lemma_clean_push_space(t.push(c), false);
                assert(t + emit_token(tok, wrap, true, w) =~= t.push(c).push(' '));
            }
        } else {
            lemma_clean_push_char(t, w, c);
            assert(t + emit_token(tok, wrap, true, w) =~= t.push(c));
        }
    } else {
        let first = tok[0];
        let rest = tok.drop_first();
        assert(ws_free(rest)) by {
            assert(forall|i: int| 0 <= i < rest.len() ==> rest[i] == tok[i + 1]);
        }
        if wrap {
            if !w {
                lemma_clean_push_space(t, w);
                lemma_clean_push_char(t.push(' '), true, first);
                lemma_clean_emit(t.push(' ').push(first), false, rest, false);
                lemma_clean_push_space(t.push(' ').push(first) + rest, false);
                assert(t + emit_token(tok, wrap, true, w) =~= ((t.push(' ').push(first) + rest)
                    .push(' ')));
            } else {
                lemma_clean_push_char(t, w, first);
                lemma_clean_emit(t.push(first), false, rest, false);
                lemma_clean_push_space(t.push(first) + rest, false);
                assert(t + emit_token(tok, wrap, true, w) =~= (t.push(first) + rest).push(' '));
            }
        } else {
            lemma_clean_push_char(t, w, first);
            lemma_clean_emit(t.push(first), false, rest, false);
            assert(t + emit_token(tok, wrap, true, w) =~= t.push(first) + rest);
        }
    }
}

/// The entry facts of a normalized node, read off the emission it appended.
proof fn lemma_emit_entry_fact<N: Normalizer>(
    doc: &Document,
    params: &DNMParameters<N>,
    node: usize,
    t0: Seq<char>,
    w0: bool,
    tok: Seq<char>,
    e: (usize, usize),
    t1: Seq<char>,
)
    requires
        params.wf(),
        node < doc.nodes.len(),
        doc.nodes[node as int] is Element,
        resolve(doc, params, node) == Resolution::Emit(tok),
        params.normalize_white_spaces ==> flag_pos(t0, w0),
        t1 == t0 + emit_token(tok, params.wrap_tokens, params.normalize_white_spaces, w0),
        e.0 as nat == t0.len(),
        e.1 as int == entry_end(
            params.move_whitespaces_between_nodes,
            e.0 as int,
            t1.len() as int,
            params.wrap_tokens,
        ),
    ensures
        entry_ok(doc, params, node, e, t1),
{
    let wrap = params.wrap_tokens;
    let collapse = params.normalize_white_spaces;
    let lead: int = if !w0 || !collapse {
        1
    } else {
        0
    };
    if wrap {
        assert(t1.subrange(e.0 + lead, e.0 + lead + tok.len()) =~= tok);
        assert(t1[e.0 + lead + tok.len()] == ' ');
        if lead == 1 {
            assert(t1[e.0 as int] == ' ');
        } else {
            assert(w0 && collapse);
            if t0.len() > 0 {
                assert(t1[e.0 - 1] == t0.last());
                assert(t0.last() == ' ');
            }
        }
        assert((lead == 0 || lead == 1) && e.0 + lead + tok.len() + 1 <= t1.len() && t1.subrange(
            e.0 + lead,
            e.0 + lead + tok.len(),
        ) == tok && (lead == 1 ==> t1[e.0 as int] == ' ') && (lead == 0 ==> e.0 == 0 || t1[e.0 - 1]
            == ' ') && t1[e.0 + lead + tok.len()] == ' ');
    } else {
        assert(t1.subrange(e.0 as int, e.0 + tok.len()) =~= tok);
    }
    assert(e.0 <= e.1 <= t1.len());
    match doc.nodes[node as int] {
        Node::Element { .. } => {
            match resolve(doc, params, node) {
                Resolution::Emit(tk) => {
                    assert(tk == tok);
                    if wrap {
                        assert(exists|lead2: int|
                            {
                                &&& (lead2 == 0 || lead2 == 1)
                                &&& e.0 + lead2 + tk.len() + 1 <= t1.len()
                                &&& #[trigger] t1.subrange(e.0 + lead2, e.0 + lead2 + tk.len())
                                    == tk
                                &&& (lead2 == 1 ==> t1[e.0 as int] == ' ')
                                &&& (lead2 == 0 ==> e.0 == 0 || t1[e.0 - 1] == ' ')
                                &&& t1[e.0 + lead2 + tk.len()] == ' '
                            });
                    } else {
                        assert(e.0 + tk.len() <= t1.len());
                        assert(t1.subrange(e.0 as int, e.0 + tk.len()) == tk);
                        assert(e.1 as int == entry_end(
                            params.move_whitespaces_between_nodes,
                            e.0 as int,
                            e.0 + tk.len(),
                            false,
                        ));
                    }
                },
                _ => {
                    assert(false);
                },
            }
        },
        Node::Text { .. } => {
            assert(false);
        },
    }
    assert(entry_ok(doc, params, node, e, t1));
}

/// The entry facts of a text node, read off what its scan emitted.
proof fn lemma_text_entry_fact<N: Normalizer>(
    doc: &Document,
    params: &DNMParameters<N>,
    node: usize,
    t0: Seq<char>,
    w0: bool,
    e: (usize, usize),
    t1: Seq<char>,
)
    requires
        node < doc.nodes.len(),
        doc.nodes[node as int] is Text,
        params.normalize_white_spaces,
        ({
            let content = doc.nodes[node as int]->Text_content;
            let st = scan_text(
                params.move_whitespaces_between_nodes,
                folded(params, content@),
                w0,
            );
            &&& t1 == t0 + st.emitted
            &&& e.0 as nat == t0.len() + st.lead
            &&& e.1 as int == entry_end(
                params.move_whitespaces_between_nodes,
                e.0 as int,
                t1.len() as int,
                st.had_ws,
            )
            &&& e.0 <= e.1 <= t1.len()
        }),
    ensures
        entry_ok(doc, params, node, e, t1),
{
    let content = doc.nodes[node as int]->Text_content;
    let migrate = params.move_whitespaces_between_nodes;
    let f = folded(params, content@);
    let st = scan_text(migrate, f, w0);
    assert(e.0 - st.lead == t0.len());
    assert(t1.subrange(e.0 - st.lead, e.0 - st.lead + st.emitted.len()) =~= st.emitted);
    assert(exists|w: bool|
        {
            let st2 = #[trigger] scan_text(migrate, f, w);
            &&& st2.lead <= e.0
            &&& e.0 - st2.lead + st2.emitted.len() <= t1.len()
            &&& t1.subrange(e.0 - st2.lead, e.0 - st2.lead + st2.emitted.len()) == st2.emitted
            &&& e.1 == entry_end(migrate, e.0 as int, e.0 - st2.lead + st2.emitted.len(), st2.had_ws)
        }) by {
        assert(scan_text(migrate, f, w0) == st);
        assert(e.0 - st.lead + st.emitted.len() == t1.len());
    }
}

/// After walking all children of an entered element, inserting the
/// element's own entry preserves the structural laws: the children's
/// entries lie inside the element's span and are already ordered, and
/// nothing indexed lists the element as a child.
proof fn lemma_enter_insert_laws(
    doc: &Document,
    m0: Map<usize, (usize, usize)>,
    m_l: Map<usize, (usize, usize)>,
    migrate: bool,
    node: usize,
    ent: (usize, usize),
    t0len: nat,
    len1: nat,
)
    requires
        doc.wf(),
        node < doc.nodes.len(),
        map_laws(*doc, m_l, migrate),
        forall|k: usize| #[trigger] m0.contains_key(k) ==> !doc.in_subtree(node, k),
        forall|k: usize| #[trigger] m0.contains_key(k) ==> !doc.is_child_of(k, node),
        forall|k: usize| #[trigger]
            m_l.contains_key(k) ==> m0.contains_key(k) || doc.in_subtree(node, k),
        forall|k: usize|
            #[trigger] m_l.contains_key(k) && !m0.contains_key(k) ==> t0len <= m_l[k].0,
        forall|k: usize| #[trigger] m_l.contains_key(k) ==> m_l[k].0 <= m_l[k].1 <= len1,
        forall|j: int|
            0 <= j && j + 1 < doc.nodes[node as int].spec_children().len() && m_l.contains_key(
                #[trigger] child_at(*doc, node, j),
            ) && m_l.contains_key(child_at(*doc, node, j + 1)) ==> m_l[child_at(*doc, node, j)].1
                <= m_l[child_at(*doc, node, j + 1)].0,
        ent.0 as nat == t0len,
        ent.1 as int + migrate_slack(migrate) >= len1,
        ent.0 <= ent.1,
    ensures
        map_laws(*doc, m_l.insert(node, ent), migrate),
{
    let m1 = m_l.insert(node, ent);
    assert forall|p: usize, j: int|
        m1.contains_key(p) && p < doc.nodes.len() && 0 <= j
            < doc.nodes[p as int].spec_children().len() && m1.contains_key(
            #[trigger] child_at(*doc, p, j),
        ) implies (m1[p].0 <= m1[child_at(*doc, p, j)].0 && m1[child_at(*doc, p, j)].1 <= m1[p].1
        + migrate_slack(migrate)) by {
        let ch = child_at(*doc, p, j);
        if p == node {
            assert(ch < node);
            assert(doc.in_subtree(node, ch)) by {
                assert(doc.in_subtree(ch, ch));
                doc.lemma_subtree_grow(node, ch, ch);
            }
            assert(!m0.contains_key(ch));
            assert(m_l.contains_key(ch) && m1[ch] == m_l[ch]);
        } else {
            if !m0.contains_key(p) {
                assert(doc.in_subtree(node, p));
            }
            lemma_not_parent(doc, node, m0, p, j);
            assert(ch != node);
        }
    }
    assert forall|p: usize, j: int|
        m1.contains_key(p) && p < doc.nodes.len() && 0 <= j && j + 1
            < doc.nodes[p as int].spec_children().len() && m1.contains_key(
            #[trigger] child_at(*doc, p, j),
        ) && m1.contains_key(child_at(*doc, p, j + 1)) implies m1[child_at(*doc, p, j)].1 <= m1[
        child_at(*doc, p, j + 1)].0 by {
        if p != node {
            if !m0.contains_key(p) {
                assert(doc.in_subtree(node, p));
            }
            lemma_not_parent(doc, node, m0, p, j);
            lemma_not_parent(doc, node, m0, p, j + 1);
        }
    }
}

/// Inserting an entry for a node none of whose children is indexed, and
/// which no indexed node lists as a child, preserves the structural laws.
proof fn lemma_map_laws_insert_leaf(
    doc: &Document,
    m: Map<usize, (usize, usize)>,
    migrate: bool,
    node: usize,
    ent: (usize, usize),
)
    requires
        doc.wf(),
        map_laws(*doc, m, migrate),
        node < doc.nodes.len(),
        forall|j: int|
            0 <= j < doc.nodes[node as int].spec_children().len() ==> !m.contains_key(
                #[trigger] child_at(*doc, node, j),
            ),
        forall|p: usize, j: int|
            m.contains_key(p) && p < doc.nodes.len() && 0 <= j
                < doc.nodes[p as int].spec_children().len() ==> #[trigger] child_at(*doc, p, j)
                != node,
    ensures
        map_laws(*doc, m.insert(node, ent), migrate),
{
    let m1 = m.insert(node, ent);
    assert forall|p: usize, j: int|
        m1.contains_key(p) && p < doc.nodes.len() && 0 <= j
            < doc.nodes[p as int].spec_children().len() && m1.contains_key(
            #[trigger] child_at(*doc, p, j),
        ) implies (m1[p].0 <= m1[child_at(*doc, p, j)].0 && m1[child_at(*doc, p, j)].1 <= m1[p].1
        + migrate_slack(migrate)) by {
        let ch = child_at(*doc, p, j);
        if p == node {
            assert(ch < node);
            assert(!m.contains_key(ch));
            assert(false);
        } else {
            assert(ch != node);
        }
    }
    assert forall|p: usize, j: int|
        m1.contains_key(p) && p < doc.nodes.len() && 0 <= j && j + 1
            < doc.nodes[p as int].spec_children().len() && m1.contains_key(
            #[trigger] child_at(*doc, p, j),
        ) && m1.contains_key(child_at(*doc, p, j + 1)) implies m1[child_at(*doc, p, j)].1 <= m1[
        child_at(*doc, p, j + 1)].0 by {
        let c1 = child_at(*doc, p, j);
        let c2 = child_at(*doc, p, j + 1);
        if p == node {
            assert(!m.contains_key(c1));
            assert(false);
        } else {
            assert(c1 != node && c2 != node);
        }
    }
}

/// The structural laws survive inserting the entry of a node whose subtree
/// was not descended into: none of its children is indexed, and nothing
/// indexed lists it as a child.
proof fn lemma_leaf_insert_ok(
    doc: &Document,
    m0: Map<usize, (usize, usize)>,
    migrate: bool,
    node: usize,
    ent: (usize, usize),
)
    requires
        doc.wf(),
        node < doc.nodes.len(),
        map_laws(*doc, m0, migrate),
        forall|k: usize| #[trigger] m0.contains_key(k) ==> !doc.in_subtree(node, k),
        forall|k: usize| #[trigger] m0.contains_key(k) ==> !doc.is_child_of(k, node),
    ensures
        map_laws(*doc, m0.insert(node, ent), migrate),
{
    assert forall|j: int|
        0 <= j < doc.nodes[node as int].spec_children().len() implies !m0.contains_key(
        #[trigger] child_at(*doc, node, j),
    ) by {
        let ch = child_at(*doc, node, j);
        assert(doc.nodes[node as int].spec_children()[j] == ch);
        assert(ch < node);
        assert(doc.in_subtree(ch, ch));
        doc.lemma_subtree_grow(node, ch, ch);
    }
    assert forall|p: usize, j: int|
        m0.contains_key(p) && p < doc.nodes.len() && 0 <= j
            < doc.nodes[p as int].spec_children().len() implies #[trigger] child_at(*doc, p, j)
        != node by {
        if child_at(*doc, p, j) == node {
            assert(doc.nodes[p as int].spec_children()[j] == node);
            assert(doc.is_child_of(p, node));
        }
    }
    lemma_map_laws_insert_leaf(doc, m0, migrate, node, ent);
}

/// A node other than `node` holding an index entry after `node`'s subtree
/// was walked never lists `node` as a child: indexed nodes are either from
/// before the walk (and then not a parent of `node`) or inside the subtree
/// (and then strictly below `node`).
proof fn lemma_not_parent(
    doc: &Document,
    node: usize,
    m0: Map<usize, (usize, usize)>,
    p: usize,
    j: int,
)
    requires
        doc.wf(),
        node < doc.nodes.len(),
        p < doc.nodes.len(),
        0 <= j < doc.nodes[p as int].spec_children().len(),
        m0.contains_key(p) ==> !doc.is_child_of(p, node),
        !m0.contains_key(p) ==> doc.in_subtree(node, p),
        p != node,
    ensures
        child_at(*doc, p, j) != node,
{
    if child_at(*doc, p, j) == node {
        if m0.contains_key(p) {
            assert(doc.is_child_of(p, node));
        } else {
            doc.lemma_subtree_le(node, p);
            assert(child_at(*doc, p, j) < p);
        }
    }
}

/// The DNM: a wrapper around the plaintext representation of a document,
/// mapping plaintext ranges back to nodes. It breaks if the document is
/// changed after generation.
pub struct DNM<N: Normalizer> {
    /// The plaintext.
    pub plaintext: String,
    /// The options used for generation.
    pub parameters: DNMParameters<N>,
    /// The node the build started from.
    pub root_node: usize,
    /// Maps node identities to plaintext offsets.
    pub node_map: HashMap<usize, (usize, usize)>,
}

/// Everything a successful build guarantees: the index covers only the
/// subtree of the root and holds the root; every entry is in bounds and
/// carries its positional facts; ranges nest along edges and do not overlap
/// across adjacent siblings; the root's entry pins the whole emission; and
/// with collapsing on and well-shaped tokens the plaintext is clean.
pub open spec fn dnm_built<N: Normalizer>(
    doc: &Document,
    dnm: DNM<N>,
    root: usize,
    parameters: DNMParameters<N>,
) -> bool {
    &&& dnm.parameters == parameters
    &&& dnm.root_node == root
    &&& dnm.node_map@.contains_key(root)
    &&& forall|k: usize| #[trigger]
        dnm.node_map@.contains_key(k) ==> doc.in_subtree(root, k) && dnm.node_map@[k].0
            <= dnm.node_map@[k].1 <= dnm.plaintext@.len() && entry_ok(
            doc,
            &parameters,
            k,
            dnm.node_map@[k],
            dnm.plaintext@,
        )
    &&& map_laws(*doc, dnm.node_map@, parameters.move_whitespaces_between_nodes)
    &&& exists|w1: bool|
        node_entry(
            doc,
            &parameters,
            root,
            Seq::empty(),
            true,
            dnm.plaintext@,
            w1,
            dnm.node_map@[root],
        )
    &&& (parameters.normalize_white_spaces && tokens_ok(doc, &parameters, root)) ==> {
        &&& no_double_space(dnm.plaintext@)
        &&& (dnm.plaintext@.len() > 0 ==> dnm.plaintext@[0] != ' ')
    }
    &&& (parameters.normalize_white_spaces && tokens_ws_free(doc, &parameters, root))
        ==> ws_is_space(dnm.plaintext@)
    &&& ({
        // the build equals the functional model of the walk: the plaintext
        // is exactly what walking the root from an empty buffer emits, and
        // the index holds exactly the model's entries — one per visited
        // node, with the model's offsets. This pins the whole build,
        // including everything below entered elements.
        let w = walk_spec(doc, &parameters, root, 0, true);
        &&& dnm.plaintext@ == w.emitted
        &&& forall|k: usize| #[trigger]
            dnm.node_map@.contains_key(k) ==> w.entries.contains_key(k)
        &&& forall|k: usize| #[trigger]
            w.entries.contains_key(k) ==> dnm.node_map@.contains_key(k) && dnm.node_map@[k].0
                == w.entries[k].0 && dnm.node_map@[k].1 == w.entries[k].1
    })
}

impl<N: Normalizer> DNM<N> {
    /// Creates a `DNM` for the subtree of `root` in `doc`, under
    /// `parameters`. Fails exactly when the parameters ask for boundary
    /// whitespace migration without whitespace collapsing; otherwise the
    /// build is total and returns a DNM satisfying `dnm_built`.
    pub fn create_dnm(root: usize, doc: &Document, parameters: DNMParameters<N>) -> (r: Result<
        DNM<N>,
        DnmError,
    >)
        requires
            doc.wf(),
            root < doc.nodes.len(),
        ensures
            r is Ok <==> parameters.wf(),
            r matches Err(e) ==> e == DnmError::InvalidConfiguration,
            r matches Ok(dnm) ==> dnm_built(doc, dnm, root, parameters),
    {
        if parameters.move_whitespaces_between_nodes && !parameters.normalize_white_spaces {
            return Err(DnmError::InvalidConfiguration);
        }
        let mut text = String::new();
        let mut map: HashMap<usize, (usize, usize)> = HashMap::new();
        let mut had_ws = true;
        let ghost e0 = text@;
        proof {
            assert(e0 =~= Seq::<char>::empty());
            assert(clean(e0, true));
        }
        recursive_dnm_generation(doc, &parameters, root, &mut text, &mut map, &mut had_ws);
        proof {
            if parameters.normalize_white_spaces && tokens_ok(doc, &parameters, root) {
                assert(clean(text@, had_ws));
            }
            if parameters.normalize_white_spaces && tokens_ws_free(doc, &parameters, root) {
                assert(ws_is_space(e0));
                assert(ws_is_space(text@));
            }
            assert(node_entry(doc, &parameters, root, e0, true, text@, had_ws, map@[root]));
            assert(node_entry(
                doc,
                &parameters,
                root,
                Seq::<char>::empty(),
                true,
                text@,
                had_ws,
                map@[root],
            ));
        }
        let result = DNM { plaintext: text, parameters, root_node: root, node_map: map };
        proof {
            let w = walk_spec(doc, &result.parameters, root, 0, true);
            assert(e0.len() == 0);
            assert(w == walk_spec(doc, &result.parameters, root, e0.len(), true));
            assert(result.plaintext@ =~= w.emitted);
            assert forall|k: usize| #[trigger]
                result.node_map@.contains_key(k) implies w.entries.contains_key(k) by {}
            assert forall|k: usize| #[trigger]
                w.entries.contains_key(k) implies result.node_map@.contains_key(k)
                && result.node_map@[k].0 == w.entries[k].0 && result.node_map@[k].1
                == w.entries[k].1 by {}
            assert forall|k: usize| #[trigger]
                result.node_map@.contains_key(k) implies doc.in_subtree(root, k)
                && result.node_map@[k].0 <= result.node_map@[k].1 <= result.plaintext@.len()
                && entry_ok(
                doc,
                &result.parameters,
                k,
                result.node_map@[k],
                result.plaintext@,
            ) by {
                assert(result.node_map@ == map@);
            }
            assert(exists|w1: bool|
                node_entry(
                    doc,
                    &result.parameters,
                    root,
                    Seq::<char>::empty(),
                    true,
                    result.plaintext@,
                    w1,
                    result.node_map@[root],
                )) by {
                assert(node_entry(
                    doc,
                    &result.parameters,
                    root,
                    Seq::<char>::empty(),
                    true,
                    result.plaintext@,
                    had_ws,
                    result.node_map@[root],
                ));
            }
            assert(dnm_built(doc, result, root, result.parameters));
        }
        Ok(result)
    }

    /// Get the plaintext range of a node: `Ok` exactly when the node was
    /// indexed by the build, with the recorded offsets; `NotFound`
    /// otherwise.
    pub fn get_range_of_node<'a>(&'a self, node: usize) -> (r: Result<DNMRange<'a, N>, DnmError>)
        ensures
            r is Ok <==> self.node_map@.contains_key(node),
            r matches Ok(rg) ==> rg.start == self.node_map@[node].0 && rg.end
                == self.node_map@[node].1 && rg.dnm == self,
            r matches Err(e) ==> e == DnmError::NotFound,
    {
        match self.node_map.get(&node) {
            Some(pair) => Ok(DNMRange { start: pair.0, end: pair.1, dnm: self }),
            None => Err(DnmError::NotFound),
        }
    }
}

/// Range containment: in a built DNM, for every indexed pair of a parent
/// and one of its children, the child's range begins no earlier than the
/// parent's, and ends within the parent's range, allowing one migrated
/// trailing space when boundary migration is on.
pub proof fn lemma_range_containment<N: Normalizer>(
    doc: &Document,
    dnm: DNM<N>,
    root: usize,
    p: usize,
    j: int,
)
    requires
        dnm_built(doc, dnm, root, dnm.parameters),
        p < doc.nodes.len(),
        0 <= j < doc.nodes[p as int].spec_children().len(),
        dnm.node_map@.contains_key(p),
        dnm.node_map@.contains_key(child_at(*doc, p, j)),
    ensures
        dnm.node_map@[p].0 <= dnm.node_map@[child_at(*doc, p, j)].0,
        dnm.node_map@[child_at(*doc, p, j)].1 <= dnm.node_map@[p].1 + migrate_slack(
            dnm.parameters.move_whitespaces_between_nodes,
        ),
{
}

/// Monotone siblings: in a built DNM, the ranges of two adjacent indexed
/// siblings never overlap: the earlier one ends at or before the later one
/// begins.
pub proof fn lemma_monotone_siblings<N: Normalizer>(
    doc: &Document,
    dnm: DNM<N>,
    root: usize,
    p: usize,
    j: int,
)
    requires
        dnm_built(doc, dnm, root, dnm.parameters),
        p < doc.nodes.len(),
        0 <= j,
        j + 1 < doc.nodes[p as int].spec_children().len(),
        dnm.node_map@.contains_key(p),
        dnm.node_map@.contains_key(child_at(*doc, p, j)),
        dnm.node_map@.contains_key(child_at(*doc, p, j + 1)),
    ensures
        dnm.node_map@[child_at(*doc, p, j)].1 <= dnm.node_map@[child_at(*doc, p, j + 1)].0,
{
}

/// Skip emptiness: in a built DNM, a node whose rule resolved to `Skip`
/// contributed nothing to the plaintext: its recorded range is empty.
pub proof fn lemma_skip_empty<N: Normalizer>(doc: &Document, dnm: DNM<N>, root: usize, k: usize)
    requires
        dnm_built(doc, dnm, root, dnm.parameters),
        dnm.node_map@.contains_key(k),
        doc.nodes[k as int] is Element,
        resolve(doc, &dnm.parameters, k) is Skip,
    ensures
        dnm.node_map@[k].0 == dnm.node_map@[k].1,
{
    assert(entry_ok(doc, &dnm.parameters, k, dnm.node_map@[k], dnm.plaintext@));
}

/// Wrapped tokens: in a built DNM with `wrap_tokens` on, every normalized
/// node's token stands in the plaintext preceded by a space (or at the very
/// start of the plaintext) and followed by a space.
pub proof fn lemma_wrapped_token_spaced<N: Normalizer>(
    doc: &Document,
    dnm: DNM<N>,
    root: usize,
    k: usize,
    tok: Seq<char>,
)
    requires
        dnm_built(doc, dnm, root, dnm.parameters),
        dnm.parameters.wrap_tokens,
        dnm.node_map@.contains_key(k),
        doc.nodes[k as int] is Element,
        resolve(doc, &dnm.parameters, k) == Resolution::Emit(tok),
    ensures
        exists|q: int|
            {
                &&& 0 <= q
                &&& q + tok.len() + 1 <= dnm.plaintext@.len()
                &&& #[trigger] dnm.plaintext@.subrange(q, q + tok.len()) == tok
                &&& (q == 0 || dnm.plaintext@[q - 1] == ' ')
                &&& dnm.plaintext@[q + tok.len()] == ' '
            },
{
    assert(entry_ok(doc, &dnm.parameters, k, dnm.node_map@[k], dnm.plaintext@));
    let e = dnm.node_map@[k];
    let t = dnm.plaintext@;
    let lead = choose|lead: int|
        {
            &&& (lead == 0 || lead == 1)
            &&& e.0 + lead + tok.len() + 1 <= t.len()
            &&& #[trigger] t.subrange(e.0 + lead, e.0 + lead + tok.len()) == tok
            &&& (lead == 1 ==> t[e.0 as int] == ' ')
            &&& (lead == 0 ==> e.0 == 0 || t[e.0 - 1] == ' ')
            &&& t[e.0 + lead + tok.len()] == ' '
        };
    let q = e.0 + lead;
    assert(0 <= q && q + tok.len() + 1 <= t.len() && t.subrange(q, q + tok.len()) == tok && (q == 0
        || t[q - 1] == ' ') && t[q + tok.len()] == ' ');
}

/// The recursive DNM generation: emit the plaintext of the subtree of
/// `node` and record a range for every node it visits. The contract pins
/// the emission for text, normalized and skipped nodes exactly, bounds and
/// orders all recorded ranges, and preserves whitespace cleanliness.
#[verifier::rlimit(100)]
#[verifier::spinoff_prover]
fn recursive_dnm_generation<N: Normalizer>(
    doc: &Document,
    params: &DNMParameters<N>,
    node: usize,
    text: &mut String,
    map: &mut HashMap<usize, (usize, usize)>,
    had_ws: &mut bool,
)
    requires
        doc.wf(),
        params.wf(),
        node < doc.nodes.len(),
        forall|k: usize| #[trigger] old(map)@.contains_key(k) ==> !doc.in_subtree(node, k),
        forall|k: usize| #[trigger]
            old(map)@.contains_key(k) ==> old(map)@[k].0 <= old(map)@[k].1 <= old(text)@.len(),
        forall|k: usize| #[trigger] old(map)@.contains_key(k) ==> !doc.is_child_of(k, node),
        map_laws(*doc, old(map)@, params.move_whitespaces_between_nodes),
        forall|k: usize| #[trigger]
            old(map)@.contains_key(k) ==> entry_ok(doc, params, k, old(map)@[k], old(text)@),
        params.normalize_white_spaces ==> flag_pos(old(text)@, *old(had_ws)),
    ensures
        old(text)@.len() <= final(text)@.len(),
        final(text)@.subrange(0, old(text)@.len() as int) == old(text)@,
        forall|k: usize| #[trigger]
            old(map)@.contains_key(k) ==> final(map)@.contains_key(k)
                && final(map)@[k] == old(map)@[k],
        forall|k: usize| #[trigger]
            final(map)@.contains_key(k) ==> old(map)@.contains_key(k) || doc.in_subtree(node, k),
        final(map)@.contains_key(node),
        forall|k: usize|
            #[trigger] final(map)@.contains_key(k) && !old(map)@.contains_key(k)
                ==> old(text)@.len() <= final(map)@[k].0,
        forall|k: usize| #[trigger]
            final(map)@.contains_key(k)
                ==> final(map)@[k].0 <= final(map)@[k].1 <= final(text)@.len(),
        map_laws(*doc, final(map)@, params.move_whitespaces_between_nodes),
        forall|k: usize| #[trigger]
            final(map)@.contains_key(k) ==> entry_ok(doc, params, k, final(map)@[k], final(text)@),
        node_entry(
            doc,
            params,
            node,
            old(text)@,
            *old(had_ws),
            final(text)@,
            *final(had_ws),
            final(map)@[node],
        ),
        params.normalize_white_spaces ==> flag_pos(final(text)@, *final(had_ws)),
        (params.normalize_white_spaces && tokens_ok(doc, params, node) && clean(
            old(text)@,
            *old(had_ws),
        )) ==> clean(final(text)@, *final(had_ws)),
        (params.normalize_white_spaces && tokens_ws_free(doc, params, node) && ws_is_space(
            old(text)@,
        )) ==> ws_is_space(final(text)@),
        ({
            let w = walk_spec(doc, params, node, old(text)@.len(), *old(had_ws));
            &&& final(text)@ == old(text)@ + w.emitted
            &&& *final(had_ws) == w.had_ws
            &&& forall|k: usize| #[trigger]
                final(map)@.contains_key(k) ==> old(map)@.contains_key(k)
                    || w.entries.contains_key(k)
            &&& forall|k: usize| #[trigger]
                w.entries.contains_key(k) ==> final(map)@.contains_key(k) && final(map)@[k].0
                    == w.entries[k].0 && final(map)@[k].1 == w.entries[k].1
        }),
    decreases node,
{
    let ghost t0 = text@;
    let ghost w0 = *had_ws;
    let ghost m0 = map@;
    let ghost migrate = params.move_whitespaces_between_nodes;
    let offset_start = text.as_str().unicode_len();
    proof {
        assert(doc.in_subtree(node, node));
    }
    match &doc.nodes[node] {
        Node::Text { content } => {
            let folded_c: String = if params.normalize_unicode {
                fold_to_ascii(content)
            } else {
                content.clone()
            };
            let ghost f = folded_c@;
            proof {
                assert(f == folded(params, content@));
            }
            if params.normalize_white_spaces {
                let n = folded_c.as_str().unicode_len();
                let mut start = offset_start;
                let mut still_leading = true;
                let mut i: usize = 0;
                while i < n
                    invariant
                        i <= n,
                        n == f.len(),
                        folded_c@ == f,
                        text@ == t0 + scan_upto(migrate, f, i as int, w0).emitted,
                        *had_ws == scan_upto(migrate, f, i as int, w0).had_ws,
                        start == t0.len() + scan_upto(migrate, f, i as int, w0).lead,
                        still_leading == scan_upto(migrate, f, i as int, w0).leading,
                        map@ == m0,
                        params.normalize_white_spaces,
                        migrate == params.move_whitespaces_between_nodes,
                        params.normalize_white_spaces ==> flag_pos(text@, *had_ws),
                        clean(t0, w0) ==> clean(text@, *had_ws),
                        ws_is_space(t0) ==> ws_is_space(text@),
                    decreases n - i,
                {
                    let ghost st = scan_upto(migrate, f, i as int, w0);
                    proof {
                        lemma_scan_shape(migrate, f, i as int, w0);
                        assert(scan_upto(migrate, f, i as int + 1, w0) == scan_step(
                            migrate,
                            st,
                            f[i as int],
                        ));
                    }
                    let c = folded_c.as_str().get_char(i);
                    if char_is_whitespace(c) {
                        if !*had_ws {
                            proof {
                                if clean(t0, w0) {
                                    lemma_clean_push_space(text@, *had_ws);
                                }
                                if ws_is_space(t0) {
                                    lemma_ws_space_push(text@, ' ');
                                }
                            }
                            push_char(text, ' ');
                            *had_ws = true;
                            if params.move_whitespaces_between_nodes && still_leading {
                                start = start + 1;
                            }
                            proof {
                                assert(text@ =~= t0 + st.emitted.push(' '));
                                assert(text@.last() == ' ');
                            }
                        }
                    } else {
                        proof {
                            if clean(t0, w0) {
                                lemma_clean_push_char(text@, *had_ws, c);
                            }
                            if ws_is_space(t0) {
                                lemma_ws_space_push(text@, c);
                            }
                        }
                        push_char(text, c);
                        *had_ws = false;
                        still_leading = false;
                        proof {
                            assert(text@ =~= t0 + st.emitted.push(c));
                        }
                    }
                    i += 1;
                }
                let ghost stf = scan_text(migrate, f, w0);
                proof {
                    assert(stf == scan_upto(migrate, f, n as int, w0));
                    lemma_scan_shape(migrate, f, n as int, w0);
                }
                let len1 = text.as_str().unicode_len();
                let e = if params.move_whitespaces_between_nodes && len1 > start && *had_ws {
                    len1 - 1
                } else {
                    len1
                };
                map.insert(node, (start, e));
                proof {
                    lemma_leaf_insert_ok(doc, m0, migrate, node, (start, e));
                    assert(text@.subrange(0, t0.len() as int) =~= t0);
                    assert(e as int == entry_end(migrate, start as int, len1 as int, *had_ws));
                    lemma_text_entry_fact(doc, params, node, t0, w0, (start, e), text@);
                    let w = walk_spec(doc, params, node, t0.len(), w0);
                    assert(w.emitted == stf.emitted && w.had_ws == stf.had_ws);
                    assert(len1 as nat == t0.len() + stf.emitted.len());
                    assert(w.entries.contains_key(node) && w.entries[node].0 == start as nat
                        && w.entries[node].1 == e as nat);
                    assert(forall|k: usize| #[trigger] w.entries.contains_key(k) ==> k == node);
                    assert forall|k: usize| #[trigger]
                        map@.contains_key(k) implies entry_ok(
                        doc,
                        params,
                        k,
                        map@[k],
                        text@,
                    ) by {
                        if k != node {
                            lemma_entry_ok_grow(doc, params, k, m0[k], t0, text@);
                        }
                    }
                }
            } else {
                text.append(folded_c.as_str());
                let len1 = text.as_str().unicode_len();
                map.insert(node, (offset_start, len1));
                proof {
                    lemma_leaf_insert_ok(doc, m0, migrate, node, (offset_start, len1));
                    assert(text@.subrange(0, t0.len() as int) =~= t0);
                    let w = walk_spec(doc, params, node, t0.len(), w0);
                    assert(w.emitted == f && w.had_ws == w0);
                    assert(w.entries.contains_key(node) && w.entries[node].0 == offset_start as nat
                        && w.entries[node].1 == len1 as nat);
                    assert(forall|k: usize| #[trigger] w.entries.contains_key(k) ==> k == node);
                    assert forall|k: usize| #[trigger]
                        map@.contains_key(k) implies entry_ok(
                        doc,
                        params,
                        k,
                        map@[k],
                        text@,
                    ) by {
                        if k == node {
                            assert(text@.subrange(offset_start as int, offset_start + f.len())
                                =~= f);
                        } else {
                            lemma_entry_ok_grow(doc, params, k, m0[k], t0, text@);
                        }
                    }
                }
            }
        },
        Node::Element { children, .. } => {
            let step = resolve_node(doc, params, node);
            match step {
                Step::Omit => {
                    map.insert(node, (offset_start, offset_start));
                    proof {
                        lemma_leaf_insert_ok(doc, m0, migrate, node, (offset_start, offset_start));
                        assert(text@.subrange(0, t0.len() as int) =~= t0);
                        let w = walk_spec(doc, params, node, t0.len(), w0);
                        assert(w.emitted == Seq::<char>::empty() && w.had_ws == w0);
                        assert(text@ =~= t0 + w.emitted);
                        assert(w.entries.contains_key(node) && w.entries[node].0
                            == offset_start as nat && w.entries[node].1 == offset_start as nat);
                        assert(forall|k: usize| #[trigger] w.entries.contains_key(k) ==> k == node);
                    }
                },
                Step::Emit(tok) => {
                    if params.wrap_tokens {
                        if !*had_ws || !params.normalize_white_spaces {
                            push_char(text, ' ');
                        }
                        text.append(tok.as_str());
                        push_char(text, ' ');
                        *had_ws = true;
                    } else {
                        text.append(tok.as_str());
                        *had_ws = false;
                    }
                    proof {
                        assert(text@ =~= t0 + emit_token(
                            tok@,
                            params.wrap_tokens,
                            params.normalize_white_spaces,
                            w0,
                        ));
                        if params.normalize_white_spaces && tokens_ok(doc, params, node) && clean(
                            t0,
                            w0,
                        ) {
                            assert(resolve(doc, params, node) == Resolution::Emit(tok@));
                            lemma_clean_emit(t0, w0, tok@, params.wrap_tokens);
                        }
                        if params.normalize_white_spaces && tokens_ws_free(doc, params, node)
                            && ws_is_space(t0) {
                            assert(resolve(doc, params, node) == Resolution::Emit(tok@));
                            lemma_ws_space_emit(
                                t0,
                                tok@,
                                params.wrap_tokens,
                                params.normalize_white_spaces,
                                w0,
                            );
                        }
                    }
                    let len1 = text.as_str().unicode_len();
                    let e = if params.move_whitespaces_between_nodes && len1 > offset_start
                        && *had_ws {
                        len1 - 1
                    } else {
                        len1
                    };
                    map.insert(node, (offset_start, e));
                    proof {
                        lemma_leaf_insert_ok(doc, m0, migrate, node, (offset_start, e));
                        assert(text@.subrange(0, t0.len() as int) =~= t0);
                        let w = walk_spec(doc, params, node, t0.len(), w0);
                        assert(w.emitted == emit_token(
                            tok@,
                            params.wrap_tokens,
                            params.normalize_white_spaces,
                            w0,
                        ) && w.had_ws == params.wrap_tokens);
                        assert(len1 as nat == t0.len() + w.emitted.len());
                        assert(w.entries.contains_key(node) && w.entries[node].0
                            == offset_start as nat && w.entries[node].1 == e as nat);
                        assert(forall|k: usize| #[trigger] w.entries.contains_key(k) ==> k == node);
                        lemma_emit_entry_fact(
                            doc,
                            params,
                            node,
                            t0,
                            w0,
                            tok@,
                            (offset_start, e),
                            text@,
                        );
                        assert forall|k: usize| #[trigger]
                            map@.contains_key(k) implies entry_ok(
                            doc,
                            params,
                            k,
                            map@[k],
                            text@,
                        ) by {
                            if k != node {
                                lemma_entry_ok_grow(doc, params, k, m0[k], t0, text@);
                            }
                        }
                    }
                },
                Step::Recurse => {
                    let mut ci: usize = 0;
                    let ghost mut acc: Map<usize, (nat, nat)> = Map::empty();
                    proof {
                        let full = walk_children_spec(doc, params, node, 0, t0.len(), w0);
                        assert(text@.subrange(t0.len() as int, text@.len() as int)
                            =~= Seq::<char>::empty());
                        assert(full.emitted =~= text@.subrange(t0.len() as int, text@.len() as int)
                            + full.emitted);
                        assert(full.entries =~= acc.union_prefer_right(full.entries));
                    }
                    while ci < children.len()
                        invariant
                            doc.wf(),
                            params.wf(),
                            node < doc.nodes.len(),
                            doc.nodes[node as int] is Element,
                            children@ == doc.nodes[node as int].spec_children(),
                            ci <= children@.len(),
                            migrate == params.move_whitespaces_between_nodes,
                            t0.len() <= text@.len(),
                            text@.subrange(0, t0.len() as int) == t0,
                            forall|k: usize| #[trigger]
                                m0.contains_key(k) ==> map@.contains_key(k) && map@[k] == m0[k],
                            forall|k: usize| #[trigger]
                                m0.contains_key(k) ==> !doc.in_subtree(node, k)
                                    && !doc.is_child_of(k, node),
                            forall|k: usize| #[trigger]
                                map@.contains_key(k) ==> m0.contains_key(k) || exists|j: int|
                                    0 <= j < ci && doc.in_subtree(
                                        #[trigger] child_at(*doc, node, j),
                                        k,
                                    ),
                            forall|k: usize|
                                #[trigger] map@.contains_key(k) && !m0.contains_key(k)
                                    ==> t0.len() <= map@[k].0,
                            forall|k: usize| #[trigger]
                                map@.contains_key(k) ==> map@[k].0 <= map@[k].1 <= text@.len(),
                            map_laws(*doc, map@, migrate),
                            forall|k: usize| #[trigger]
                                map@.contains_key(k) ==> entry_ok(doc, params, k, map@[k], text@),
                            forall|j: int|
                                0 <= j < ci ==> map@.contains_key(
                                    #[trigger] child_at(*doc, node, j),
                                ),
                            forall|j: int|
                                0 <= j && j + 1 < ci ==> map@[#[trigger] child_at(
                                    *doc,
                                    node,
                                    j,
                                )].1 <= map@[child_at(*doc, node, j + 1)].0,
                            params.normalize_white_spaces ==> flag_pos(text@, *had_ws),
                            (params.normalize_white_spaces && tokens_ok(doc, params, node)
                                && clean(t0, w0)) ==> clean(text@, *had_ws),
                            (params.normalize_white_spaces && tokens_ws_free(doc, params, node)
                                && ws_is_space(t0)) ==> ws_is_space(text@),
                            ({
                                let full = walk_children_spec(doc, params, node, 0, t0.len(), w0);
                                let rest = walk_children_spec(
                                    doc,
                                    params,
                                    node,
                                    ci as int,
                                    text@.len(),
                                    *had_ws,
                                );
                                &&& full.emitted == text@.subrange(
                                    t0.len() as int,
                                    text@.len() as int,
                                ) + rest.emitted
                                &&& full.had_ws == rest.had_ws
                                &&& full.entries == acc.union_prefer_right(rest.entries)
                            }),
                            forall|k: usize| #[trigger]
                                map@.contains_key(k) ==> m0.contains_key(k) || acc.contains_key(k),
                            forall|k: usize| #[trigger]
                                acc.contains_key(k) ==> map@.contains_key(k) && map@[k].0
                                    == acc[k].0 && map@[k].1 == acc[k].1,
                        decreases children@.len() - ci,
                    {
                        let c = children[ci];
                        proof {
                            assert(child_at(*doc, node, ci as int) == c);
                            assert(c < node);
                            assert forall|k: usize| #[trigger]
                                map@.contains_key(k) implies !doc.in_subtree(c, k) by {
                                if doc.in_subtree(c, k) {
                                    if m0.contains_key(k) {
                                        doc.lemma_subtree_grow(node, c, k);
                                        assert(false);
                                    } else {
                                        let j = choose|j: int|
                                            0 <= j < ci && doc.in_subtree(
                                                #[trigger] child_at(*doc, node, j),
                                                k,
                                            );
                                        doc.lemma_sibling_disjoint(node, j, ci as int, k);
                                        assert(false);
                                    }
                                }
                            }
                            assert forall|k: usize| #[trigger]
                                map@.contains_key(k) implies !doc.is_child_of(k, c) by {
                                if doc.is_child_of(k, c) {
                                    let j2 = choose|j2: int|
                                        0 <= j2 < doc.nodes[k as int].spec_children().len()
                                            && doc.nodes[k as int].spec_children()[j2] == c;
                                    assert(k == node) by {
                                        if !(k == node && j2 == ci as int) {
                                            let ci2 = ci as int;
                                            assert(doc.nodes[k as int].spec_children()[j2]
                                                != doc.nodes[node as int].spec_children()[ci2]);
                                        }
                                    }
                                    if m0.contains_key(k) {
                                        assert(doc.in_subtree(node, node));
                                        assert(false);
                                    } else {
                                        let j = choose|j: int|
                                            0 <= j < ci && doc.in_subtree(
                                                #[trigger] child_at(*doc, node, j),
                                                k,
                                            );
                                        doc.lemma_subtree_le(child_at(*doc, node, j), k);
                                        assert(false);
                                    }
                                }
                            }
                            if params.normalize_white_spaces && tokens_ok(doc, params, node)
                                && clean(t0, w0) {
                                assert forall|n2: usize|
                                    n2 < doc.nodes.len() && doc.in_subtree(c, n2)
                                        && doc.nodes[n2 as int] is Element implies match resolve(
                                    doc,
                                    params,
                                    n2,
                                ) {
                                    Resolution::Emit(t) => t.len() > 0 && ws_free(t),
                                    _ => true,
                                } by {
                                    doc.lemma_subtree_grow(node, c, n2);
                                }
                            }
                            if params.normalize_white_spaces && tokens_ws_free(doc, params, node) {
                                assert forall|n2: usize|
                                    n2 < doc.nodes.len() && doc.in_subtree(c, n2)
                                        && doc.nodes[n2 as int] is Element implies match resolve(
                                    doc,
                                    params,
                                    n2,
                                ) {
                                    Resolution::Emit(t) => ws_free(t),
                                    _ => true,
                                } by {
                                    doc.lemma_subtree_grow(node, c, n2);
                                }
                            }
                        }
                        let ghost prev_text = text@;
                        let ghost prev_map = map@;
                        let ghost prev_w = *had_ws;
                        recursive_dnm_generation(doc, params, c, text, map, had_ws);
                        proof {
                            lemma_prefix_trans(t0, prev_text, text@);
                            let full = walk_children_spec(doc, params, node, 0, t0.len(), w0);
                            let fst = walk_spec(doc, params, c, prev_text.len(), prev_w);
                            let r_i = walk_children_spec(
                                doc,
                                params,
                                node,
                                ci as int,
                                prev_text.len(),
                                prev_w,
                            );
                            let r_n = walk_children_spec(
                                doc,
                                params,
                                node,
                                ci + 1,
                                prev_text.len() + fst.emitted.len(),
                                fst.had_ws,
                            );
                            assert(children@[ci as int] == c);
                            assert(r_i.emitted == fst.emitted + r_n.emitted && r_i.had_ws
                                == r_n.had_ws && r_i.entries == fst.entries.union_prefer_right(
                                r_n.entries,
                            ));
                            assert(text@ == prev_text + fst.emitted);
                            assert(prev_text.len() + fst.emitted.len() == text@.len());
                            assert(text@.subrange(t0.len() as int, text@.len() as int)
                                =~= prev_text.subrange(t0.len() as int, prev_text.len() as int)
                                + fst.emitted);
                            assert(full.emitted =~= text@.subrange(
                                t0.len() as int,
                                text@.len() as int,
                            ) + r_n.emitted);
                            let acc2 = acc.union_prefer_right(fst.entries);
                            assert(full.entries =~= acc2.union_prefer_right(r_n.entries));
                            assert forall|k: usize| #[trigger]
                                map@.contains_key(k) implies m0.contains_key(k)
                                || acc2.contains_key(k) by {
                                if !prev_map.contains_key(k) {
                                    assert(fst.entries.contains_key(k));
                                }
                            }
                            assert forall|k: usize| #[trigger]
                                acc2.contains_key(k) implies map@.contains_key(k) && map@[k].0
                                == acc2[k].0 && map@[k].1 == acc2[k].1 by {
                                if fst.entries.contains_key(k) {
                                    assert(acc2[k] == fst.entries[k]);
                                } else {
                                    assert(acc.contains_key(k) && acc2[k] == acc[k]);
                                    assert(prev_map.contains_key(k) && map@[k] == prev_map[k]);
                                }
                            }
                            acc = acc2;
                            assert forall|k: usize| #[trigger]
                                map@.contains_key(k) implies m0.contains_key(k) || exists|j: int|
                                0 <= j < ci + 1 && doc.in_subtree(
                                    #[trigger] child_at(*doc, node, j),
                                    k,
                                ) by {
                                if !m0.contains_key(k) {
                                    if prev_map.contains_key(k) {
                                        let j = choose|j: int|
                                            0 <= j < ci && doc.in_subtree(
                                                #[trigger] child_at(*doc, node, j),
                                                k,
                                            );
                                        assert(0 <= j < ci + 1 && doc.in_subtree(
                                            child_at(*doc, node, j),
                                            k,
                                        ));
                                    } else {
                                        assert(doc.in_subtree(c, k));
                                        assert(0 <= ci as int && (ci as int) < ci + 1
                                            && doc.in_subtree(child_at(*doc, node, ci as int), k));
                                    }
                                }
                            }
                            assert forall|j: int| 0 <= j && j + 1 < ci + 1 implies map@[
                                #[trigger] child_at(*doc, node, j)].1 <= map@[child_at(
                                *doc,
                                node,
                                j + 1,
                            )].0 by {
                                if j + 1 < ci as int {
                                    assert(prev_map.contains_key(child_at(*doc, node, j)));
                                    assert(prev_map.contains_key(child_at(*doc, node, j + 1)));
                                } else {
                                    let cj = child_at(*doc, node, j);
                                    assert(prev_map.contains_key(cj));
                                    assert(map@[cj] == prev_map[cj]);
                                    assert(prev_map[cj].1 <= prev_text.len());
                                    assert(!prev_map.contains_key(c));
                                    assert(prev_text.len() <= map@[c].0);
                                }
                            }
                        }
                        ci += 1;
                    }
                    let ghost m_l = map@;
                    let len1 = text.as_str().unicode_len();
                    let e = if params.move_whitespaces_between_nodes && len1 > offset_start
                        && *had_ws {
                        len1 - 1
                    } else {
                        len1
                    };
                    map.insert(node, (offset_start, e));
                    proof {
                        let m1 = map@;
                        assert(e as int == entry_end(
                            migrate,
                            offset_start as int,
                            len1 as int,
                            *had_ws,
                        ));
                        assert forall|k: usize| #[trigger]
                            m1.contains_key(k) implies m0.contains_key(k) || doc.in_subtree(
                            node,
                            k,
                        ) by {
                            if k != node && !m0.contains_key(k) {
                                let j = choose|j: int|
                                    0 <= j < children@.len() && doc.in_subtree(
                                        #[trigger] child_at(*doc, node, j),
                                        k,
                                    );
                                doc.lemma_subtree_grow(node, child_at(*doc, node, j), k);
                            }
                        }
                        lemma_enter_insert_laws(
                            doc,
                            m0,
                            m_l,
                            migrate,
                            node,
                            (offset_start, e),
                            t0.len(),
                            len1 as nat,
                        );
                        let full = walk_children_spec(doc, params, node, 0, t0.len(), w0);
                        let rest_end = walk_children_spec(
                            doc,
                            params,
                            node,
                            children@.len() as int,
                            text@.len(),
                            *had_ws,
                        );
                        assert(rest_end.emitted == Seq::<char>::empty() && rest_end.had_ws
                            == *had_ws && rest_end.entries == Map::<usize, (nat, nat)>::empty());
                        assert(full.emitted =~= text@.subrange(t0.len() as int, text@.len() as int));
                        assert(full.had_ws == *had_ws);
                        assert(full.entries =~= acc);
                        let w = walk_spec(doc, params, node, t0.len(), w0);
                        assert(w.emitted == full.emitted && w.had_ws == full.had_ws);
                        assert(w.entries == full.entries.insert(
                            node,
                            (
                                t0.len(),
                                entry_end(
                                    migrate,
                                    t0.len() as int,
                                    (t0.len() + full.emitted.len()) as int,
                                    full.had_ws,
                                ) as nat,
                            ),
                        ));
                        assert(text@ =~= t0 + w.emitted);
                        assert(t0.len() + full.emitted.len() == len1 as nat);
                        assert forall|k: usize| #[trigger]
                            map@.contains_key(k) implies m0.contains_key(k)
                            || w.entries.contains_key(k) by {
                            if k != node && !m0.contains_key(k) {
                                assert(acc.contains_key(k));
                            }
                        }
                        assert forall|k: usize| #[trigger]
                            w.entries.contains_key(k) implies map@.contains_key(k) && map@[k].0
                            == w.entries[k].0 && map@[k].1 == w.entries[k].1 by {
                            if k == node {
                                assert(map@[node] == (offset_start, e));
                                assert(w.entries[node].0 == t0.len());
                                assert(w.entries[node].1 == e as nat);
                            } else {
                                assert(acc.contains_key(k) && w.entries[k] == acc[k]);
                                assert(m_l.contains_key(k) && map@[k] == m_l[k]);
                            }
                        }
                    }
                },
            }
        },
    }
}

} // verus!

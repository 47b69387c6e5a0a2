//! Concrete syntax trees. tree-sitter does the parsing; its tree is flattened
//! into plain preorder records, and the tree structure every analyzer walks
//! (parents, ordered children, fields, node text) is rebuilt and verified here.

use vstd::prelude::*;
use vstd::slice::slice_subrange;
use vstd::utf8::*;
use vstd::string::StringSliceAdditionalSpecFns;
use crate::text::str_eq;
use tree_sitter::Language as TsLanguage;

verus! {

/// The grammars the analyzers parse with.
#[derive(Clone, Copy, PartialEq, Eq, Debug, Structural)]
pub enum Grammar {
    Rust,
    JavaScript,
    TypeScript,
    Tsx,
    Python,
    Java,
    Kotlin,
    Go,
}

/// One syntax node as tree-sitter reports it, visited in preorder.
#[derive(Clone, Debug)]
pub struct RawNode {
    /// Grammar node kind (`function_item`, `identifier`, ...).
    pub kind: String,
    /// Name of the field this node fills in its parent, if any.
    pub field: Option<String>,
    pub named: bool,
    /// An `ERROR` node or a node the parser had to invent (`MISSING`).
    pub error: bool,
    pub start_byte: usize,
    pub end_byte: usize,
    /// Distance from the root (the root has depth 0).
    pub depth: u32,
}

/// The plain-value content of a [`RawNode`].
pub struct RawNodeView {
    pub kind: Seq<char>,
    pub field: Option<Seq<char>>,
    pub named: bool,
    pub error: bool,
    pub start_byte: usize,
    pub end_byte: usize,
    pub depth: u32,
}

impl View for RawNode {
    type V = RawNodeView;

    open spec fn view(&self) -> RawNodeView {
        RawNodeView {
            kind: self.kind@,
            field: match self.field {
                Some(f) => Some(f@),
                None => None,
            },
            named: self.named,
            error: self.error,
            start_byte: self.start_byte,
            end_byte: self.end_byte,
            depth: self.depth,
        }
    }
}

pub open spec fn raw_nodes_view(v: Seq<RawNode>) -> Seq<RawNodeView> {
    v.map_values(|n: RawNode| n@)
}

/// The preorder node list tree-sitter produces for `source` under `grammar`
/// (`None` when the parser yields no tree).
pub uninterp spec fn syntax_of(grammar: Grammar, source: Seq<char>) -> Option<Seq<RawNodeView>>;

#[verifier::external_type_specification]
#[verifier::external_body]
pub struct ExTsLanguage(TsLanguage);

/// The tree-sitter language object of a grammar (`LANGUAGE` of each grammar crate).
#[verifier::external_body]
fn ts_language(grammar: Grammar) -> TsLanguage {
    match grammar {
        Grammar::Rust => tree_sitter_rust::LANGUAGE.into(),
        Grammar::JavaScript => tree_sitter_javascript::LANGUAGE.into(),
        Grammar::TypeScript => tree_sitter_typescript::LANGUAGE_TYPESCRIPT.into(),
        Grammar::Tsx => tree_sitter_typescript::LANGUAGE_TSX.into(),
        Grammar::Python => tree_sitter_python::LANGUAGE.into(),
        Grammar::Java => tree_sitter_java::LANGUAGE.into(),
        Grammar::Kotlin => tree_sitter_kotlin_ng::LANGUAGE.into(),
        Grammar::Go => tree_sitter_go::LANGUAGE.into(),
    }
}

/// `tree_sitter::Parser::parse` of `source` in the grammar's language, its tree read out
/// in preorder by a `TreeCursor`. The contract only names the result: what
/// tree-sitter builds is a function of the grammar and the text alone.
#[verifier::external_body]
fn ts_parse(grammar: Grammar, source: &str) -> (r: Option<Vec<RawNode>>)
    ensures
        syntax_of(grammar, source@) == (match r { Some(v) => Some(raw_nodes_view(v@)), None => None }),
{
    let mut parser = tree_sitter::Parser::new();
    parser.set_language(&ts_language(grammar)).ok()?;
    let tree = parser.parse(source, None)?;
    let mut c = tree.walk();
    let mut out = vec![];
    loop {
        let n = c.node();
        out.push(RawNode { kind: n.kind().into(), field: c.field_name().map(Into::into), named: n.is_named(), error: n.is_error() || n.is_missing(), start_byte: n.start_byte(), end_byte: n.end_byte(), depth: c.depth() });
        if c.goto_first_child() { continue; }
        while !c.goto_next_sibling() { if !c.goto_parent() { return Some(out); } }
    }
}

/// `std::str::from_utf8`: the bytes as a string slice when they are valid UTF-8.
#[verifier::external_body]
pub fn utf8_str(b: &[u8]) -> (r: Option<&str>)
    ensures
        r is Some <==> valid_utf8(b@),
        r matches Some(s) ==> s.spec_bytes() == b@,
{
    std::str::from_utf8(b).ok()
}

/// `i` as an `i64`, saturating at `i64::MAX`.
pub open spec fn sat_i64(i: int) -> i64 {
    if i <= i64::MAX { i as i64 } else { i64::MAX }
}

pub fn to_i64(i: usize) -> (r: i64)
    ensures
        r == sat_i64(i as int),
{
    if i as u64 <= i64::MAX as u64 {
        i as i64
    } else {
        i64::MAX
    }
}

/// How many line feeds `s` holds.
pub open spec fn newlines(s: Seq<u8>) -> nat
    decreases s.len(),
{
    if s.len() == 0 {
        0
    } else {
        newlines(s.drop_last()) + if s.last() == 10u8 { 1nat } else { 0nat }
    }
}

/// The open ancestors after the first `i` nodes of a preorder listing: node
/// `j` at depth `d` closes every open node at depth `d` or deeper, then opens.
pub open spec fn open_after(nodes: Seq<RawNodeView>, i: int) -> Seq<usize>
    decreases i,
{
    if i <= 0 {
        Seq::empty()
    } else {
        let s = open_after(nodes, i - 1);
        let d = nodes[i - 1].depth as int;
        s.take(if s.len() < d { s.len() as int } else { d }).push((i - 1) as usize)
    }
}

/// The parent of node `i` of a preorder listing: the innermost node still
/// open one level up.
pub open spec fn preorder_parent(nodes: Seq<RawNodeView>, i: int) -> Option<usize> {
    let s = open_after(nodes, i);
    let d = nodes[i].depth as int;
    let t = s.take(if s.len() < d { s.len() as int } else { d });
    if t.len() == 0 { None } else { Some(t.last()) }
}

/// The nodes before `m` whose parent is `i`, in order.
pub open spec fn kids_before(nodes: Seq<RawNodeView>, i: int, m: int) -> Seq<usize>
    decreases m,
{
    if m <= 0 {
        Seq::empty()
    } else if preorder_parent(nodes, m - 1) == Some(i as usize) {
        kids_before(nodes, i, m - 1).push((m - 1) as usize)
    } else {
        kids_before(nodes, i, m - 1)
    }
}

/// No node at or after `m` counts among the nodes before `m`: with `i >= m`
/// there are none with parent `i`, since parents come first.
pub proof fn lemma_kids_before_below(nodes: Seq<RawNodeView>, i: int, m: int)
    requires
        i >= m,
        i <= usize::MAX,
    ensures
        kids_before(nodes, i, m) == Seq::<usize>::empty(),
    decreases m,
{
    if m > 0 {
        lemma_parent_before(nodes, m - 1);
        lemma_kids_before_below(nodes, i, m - 1);
    }
}

/// Every open node comes before `i`.
pub proof fn lemma_open_before(nodes: Seq<RawNodeView>, i: int)
    ensures
        forall|k: int| 0 <= k < open_after(nodes, i).len() ==> #[trigger] open_after(nodes, i)[k] < i,
    decreases i,
{
    if i > 0 {
        lemma_open_before(nodes, i - 1);
        let s = open_after(nodes, i - 1);
        let d = nodes[i - 1].depth as int;
        let t = s.take(if s.len() < d { s.len() as int } else { d });
        assert forall|k: int| 0 <= k < open_after(nodes, i).len() implies #[trigger] open_after(nodes, i)[k] < i by {
            if k < t.len() {
                assert(open_after(nodes, i)[k] == s[k]);
            }
        }
    }
}

/// A node's parent comes before it.
pub proof fn lemma_parent_before(nodes: Seq<RawNodeView>, i: int)
    ensures
        preorder_parent(nodes, i) matches Some(p) ==> p < i,
{
    lemma_open_before(nodes, i);
}

/// A syntax tree rebuilt from tree-sitter's preorder listing, with the
/// source bytes it spans.
pub struct SyntaxTree {
    pub src: Vec<u8>,
    pub nodes: Vec<RawNode>,
    /// `parent[i]` is the index of node `i`'s parent (`None` for a root).
    pub parent: Vec<Option<usize>>,
    /// `children[i]` lists node `i`'s children in source order.
    pub children: Vec<Vec<usize>>,
    /// `rows[b]` is the 0-based row of byte offset `b` (line feeds before it).
    pub rows: Vec<usize>,
}

impl SyntaxTree {
    /// Every child sits after its parent in preorder and names it as parent.
    pub open spec fn wf(&self) -> bool {
        &&& self.rows@.len() == self.src@.len() + 1
        &&& forall|b: int| 0 <= b <= self.src@.len() ==> #[trigger] self.rows@[b] == newlines(self.src@.take(b))
        &&& self.nodes@.len() == self.parent@.len()
        &&& self.nodes@.len() == self.children@.len()
        &&& forall|i: int|
            0 <= i < self.parent@.len() && #[trigger] self.parent@[i] is Some ==> self.parent@[i]->0 < i
        &&& forall|i: int, j: int|
            0 <= i < self.children@.len() && 0 <= j < self.children@[i]@.len() ==> {
                let c = #[trigger] self.children@[i]@[j];
                &&& i < c < self.nodes@.len()
                &&& self.parent@[c as int] == Some(i as usize)
            }
    }

    /// Parents and children are exactly those the preorder listing encodes.
    pub open spec fn exact(&self) -> bool {
        let nv = raw_nodes_view(self.nodes@);
        &&& forall|i: int| 0 <= i < self.parent@.len() ==> #[trigger] self.parent@[i] == preorder_parent(nv, i)
        &&& forall|i: int| 0 <= i < self.children@.len() ==> #[trigger] self.children@[i]@ == kids_before(nv, i, nv.len() as int)
    }

    /// The tree of source bytes `src` that the preorder listing `nodes` encodes.
    pub open spec fn built_from(&self, src: Seq<u8>, nodes: Seq<RawNodeView>) -> bool {
        &&& self.wf()
        &&& self.exact()
        &&& self.src@ == src
        &&& raw_nodes_view(self.nodes@) == nodes
    }

    pub open spec fn size(&self) -> nat {
        self.nodes@.len()
    }

    pub open spec fn kids(&self, i: int) -> Seq<usize> {
        self.children@[i]@
    }

    pub open spec fn kind_of(&self, i: int) -> Seq<char> {
        self.nodes@[i].kind@
    }

    pub open spec fn has_field(&self, c: int, f: Seq<char>) -> bool {
        self.nodes@[c]@.field == Some(f)
    }

    /// The text a node spans, or nothing when its range or encoding is broken.
    pub open spec fn text_of(&self, i: int) -> Seq<char> {
        let n = self.nodes@[i];
        if n.start_byte <= n.end_byte <= self.src@.len()
            && valid_utf8(self.src@.subrange(n.start_byte as int, n.end_byte as int)) {
            decode_utf8(self.src@.subrange(n.start_byte as int, n.end_byte as int))
        } else {
            Seq::empty()
        }
    }

    /// 0-based row of byte offset `b` (offsets past the end count as the end).
    pub open spec fn row_at(&self, b: int) -> nat {
        newlines(self.src@.take(if b <= self.src@.len() { b } else { self.src@.len() as int }))
    }

    /// 1-based line on which a node starts.
    pub open spec fn line_of(&self, i: int) -> i64 {
        sat_i64(self.row_at(self.nodes@[i].start_byte as int) + 1int)
    }

    pub open spec fn end_line_of(&self, i: int) -> i64 {
        sat_i64(self.row_at(self.nodes@[i].end_byte as int) + 1int)
    }

    pub open spec fn start_of(&self, i: int) -> i64 {
        sat_i64(self.nodes@[i].start_byte as int)
    }

    pub open spec fn end_of(&self, i: int) -> i64 {
        sat_i64(self.nodes@[i].end_byte as int)
    }

    /// Some node of the tree is an error or a missing node.
    pub open spec fn spec_has_error(&self) -> bool {
        exists|i: int| 0 <= i < self.nodes@.len() && #[trigger] self.nodes@[i].error
    }

    /// Rebuild the tree from a preorder listing: each node's parent is the
    /// nearest earlier node one level up.
    pub fn from_preorder(src: Vec<u8>, nodes: Vec<RawNode>) -> (t: SyntaxTree)
        ensures
            t.wf(),
            t.exact(),
            t.src@ == src@,
            t.nodes@ == nodes@,
    {
        let ghost nv = raw_nodes_view(nodes@);
        let n = nodes.len();
        let mut parent: Vec<Option<usize>> = Vec::new();
        let mut children: Vec<Vec<usize>> = Vec::new();
        let mut stack: Vec<usize> = Vec::new();
        let mut i: usize = 0;
        while i < n
            invariant
                n == nodes@.len(),
                0 <= i <= n,
                parent@.len() == i,
                children@.len() == i,
                forall|k: int| 0 <= k < stack@.len() ==> #[trigger] stack@[k] < i,
                forall|x: int| 0 <= x < i && #[trigger] parent@[x] is Some ==> parent@[x]->0 < x,
                forall|x: int, j: int|
                    0 <= x < i && 0 <= j < children@[x]@.len() ==> {
                        let c = #[trigger] children@[x]@[j];
                        &&& x < c < i
                        &&& parent@[c as int] == Some(x as usize)
                    },
                nv == raw_nodes_view(nodes@),
                stack@ == open_after(nv, i as int),
                forall|x: int| 0 <= x < i ==> #[trigger] parent@[x] == preorder_parent(nv, x),
                forall|x: int| 0 <= x < i ==> #[trigger] children@[x]@ == kids_before(nv, x, i as int),
            decreases n - i,
        {
            let d = nodes[i].depth as usize;
            let ghost s0 = stack@;
            assert(nv[i as int].depth == nodes@[i as int].depth);
            while stack.len() > d
                invariant
                    forall|k: int| 0 <= k < stack@.len() ==> #[trigger] stack@[k] < i,
                    stack@ == s0.take(stack@.len() as int),
                    stack@.len() <= s0.len(),
                    stack@.len() >= (if s0.len() < d { s0.len() as int } else { d as int }),
                decreases stack@.len(),
            {
                stack.pop();
            }
            assert(stack@ =~= s0.take(if s0.len() < d { s0.len() as int } else { d as int }));
            let p: Option<usize> = if stack.len() == 0 {
                None
            } else {
                Some(stack[stack.len() - 1])
            };
            assert(p == preorder_parent(nv, i as int));
            proof { lemma_parent_before(nv, i as int); }
            let ghost ch0 = children@;
            parent.push(p);
            children.push(Vec::new());
            match p {
                Some(q) => {
                    let ghost before = children@;
                    children[q].push(i);
                    assert forall|x: int, j: int|
                        0 <= x < i + 1 && 0 <= j < children@[x]@.len() implies {
                            let c = #[trigger] children@[x]@[j];
                            &&& x < c < i + 1
                            &&& parent@[c as int] == Some(x as usize)
                        } by {
                        if x != q {
                            assert(children@[x] == before[x]);
                        } else if j < before[x]@.len() {
                            assert(children@[x]@[j] == before[x]@[j]);
                        }
                    }
                },
                None => {},
            }
            stack.push(i);
            proof {
                assert(stack@ == open_after(nv, i + 1));
                assert forall|x: int| 0 <= x < i + 1 implies #[trigger] children@[x]@ == kids_before(nv, x, i + 1) by {
                    if x < i {
                        assert(ch0[x]@ == kids_before(nv, x, i as int));
                        if p == Some(x as usize) {
                            assert(children@[x]@ =~= ch0[x]@.push(i));
                        } else {
                            assert(children@[x]@ =~= ch0[x]@);
                        }
                    }
                    if x == i {
                        assert(kids_before(nv, x, i as int) =~= Seq::<usize>::empty()) by {
                            lemma_kids_before_below(nv, x, i as int);
                        }
                    }
                }
            }
            i = i + 1;
        }
        let rows = row_table(&src);
        SyntaxTree { src, nodes, parent, children, rows }
    }

    pub fn len(&self) -> (r: usize)
        ensures
            r == self.nodes@.len(),
    {
        self.nodes.len()
    }

    pub fn kind(&self, i: usize) -> (r: &str)
        requires
            i < self.nodes@.len(),
        ensures
            r@ == self.kind_of(i as int),
    {
        self.nodes[i].kind.as_str()
    }

    /// Whether node `i` is of kind `k`.
    pub fn is(&self, i: usize, k: &str) -> (r: bool)
        requires
            i < self.nodes@.len(),
        ensures
            r == (self.kind_of(i as int) == k@),
    {
        str_eq(self.nodes[i].kind.as_str(), k)
    }

    pub fn is_named(&self, i: usize) -> (r: bool)
        requires
            i < self.nodes@.len(),
        ensures
            r == self.nodes@[i as int].named,
    {
        self.nodes[i].named
    }

    /// Node `c` fills field `f` of its parent.
    pub fn field_is(&self, c: usize, f: &str) -> (r: bool)
        requires
            c < self.nodes@.len(),
        ensures
            r == self.has_field(c as int, f@),
    {
        match &self.nodes[c].field {
            Some(name) => str_eq(name.as_str(), f),
            None => false,
        }
    }

    /// The first node of `s` that fills field `f` of its parent.
    pub open spec fn first_with_field(&self, s: Seq<usize>, f: Seq<char>) -> Option<usize>
        decreases s.len(),
    {
        if s.len() == 0 {
            None
        } else if 0 <= s[0] < self.nodes@.len() && self.has_field(s[0] as int, f) {
            Some(s[0])
        } else {
            self.first_with_field(s.drop_first(), f)
        }
    }

    /// The child of `i` in field `f` (the first one, when several share it).
    pub open spec fn field_of(&self, i: int, f: Seq<char>) -> Option<usize> {
        self.first_with_field(self.kids(i), f)
    }

    /// The first node of `s` whose kind is `k`.
    pub open spec fn first_of_kind(&self, s: Seq<usize>, k: Seq<char>) -> Option<usize>
        decreases s.len(),
    {
        if s.len() == 0 {
            None
        } else if 0 <= s[0] < self.nodes@.len() && self.kind_of(s[0] as int) == k {
            Some(s[0])
        } else {
            self.first_of_kind(s.drop_first(), k)
        }
    }

    /// The first child of `i` of kind `k`.
    pub open spec fn kid_of_kind(&self, i: int, k: Seq<char>) -> Option<usize> {
        self.first_of_kind(self.kids(i), k)
    }

    /// The first node of `s` whose kind is not `k`.
    pub open spec fn first_not_of_kind(&self, s: Seq<usize>, k: Seq<char>) -> Option<usize>
        decreases s.len(),
    {
        if s.len() == 0 {
            None
        } else if 0 <= s[0] < self.nodes@.len() && self.kind_of(s[0] as int) != k {
            Some(s[0])
        } else {
            self.first_not_of_kind(s.drop_first(), k)
        }
    }

    /// How many nodes of `s` have a kind that `p` accepts.
    pub open spec fn count_where(&self, s: Seq<usize>, p: spec_fn(Seq<char>) -> bool) -> nat
        decreases s.len(),
    {
        if s.len() == 0 {
            0
        } else {
            self.count_where(s.drop_last(), p) + if 0 <= s.last() < self.nodes@.len() && p(self.kind_of(s.last() as int)) { 1nat } else { 0nat }
        }
    }

    /// The first child of `i` that fills field `f`.
    pub fn field_child(&self, i: usize, f: &str) -> (r: Option<usize>)
        requires
            self.wf(),
            i < self.nodes@.len(),
        ensures
            r matches Some(c) ==> exists|j: int|
                0 <= j < self.kids(i as int).len() && self.kids(i as int)[j] == c
                && self.has_field(c as int, f@)
                && forall|j2: int| 0 <= j2 < j ==> !self.has_field(#[trigger] self.kids(i as int)[j2] as int, f@),
            r is None ==> forall|j: int|
                0 <= j < self.kids(i as int).len() ==> !self.has_field(#[trigger] self.kids(i as int)[j] as int, f@),
            r matches Some(c) ==> i < c < self.nodes@.len(),
            r == self.field_of(i as int, f@),
    {
        let kids = &self.children[i];
        let mut j: usize = 0;
        assert(kids@.skip(0) =~= kids@);
        while j < kids.len()
            invariant
                self.wf(),
                i < self.nodes@.len(),
                kids@ == self.kids(i as int),
                0 <= j <= kids@.len(),
                forall|j2: int| 0 <= j2 < j ==> !self.has_field(#[trigger] self.kids(i as int)[j2] as int, f@),
                self.field_of(i as int, f@) == self.first_with_field(kids@.skip(j as int), f@),
            decreases kids@.len() - j,
        {
            let c = kids[j];
            assert(i < c < self.nodes@.len());
            assert(kids@.skip(j as int).drop_first() =~= kids@.skip(j + 1));
            match &self.nodes[c].field {
                Some(name) => {
                    if str_eq(name.as_str(), f) {
                        return Some(c);
                    }
                },
                None => {},
            }
            j = j + 1;
        }
        None
    }

    /// The first child of `i` whose kind is `k`.
    pub fn child_of_kind(&self, i: usize, k: &str) -> (r: Option<usize>)
        requires
            self.wf(),
            i < self.nodes@.len(),
        ensures
            r matches Some(c) ==> exists|j: int|
                0 <= j < self.kids(i as int).len() && self.kids(i as int)[j] == c
                && self.kind_of(c as int) == k@
                && forall|j2: int| 0 <= j2 < j ==> self.kind_of(#[trigger] self.kids(i as int)[j2] as int) != k@,
            r is None ==> forall|j: int|
                0 <= j < self.kids(i as int).len() ==> self.kind_of(#[trigger] self.kids(i as int)[j] as int) != k@,
            r matches Some(c) ==> i < c < self.nodes@.len(),
            r == self.kid_of_kind(i as int, k@),
    {
        let kids = &self.children[i];
        let mut j: usize = 0;
        assert(kids@.skip(0) =~= kids@);
        while j < kids.len()
            invariant
                self.wf(),
                i < self.nodes@.len(),
                kids@ == self.kids(i as int),
                0 <= j <= kids@.len(),
                forall|j2: int| 0 <= j2 < j ==> self.kind_of(#[trigger] self.kids(i as int)[j2] as int) != k@,
                self.kid_of_kind(i as int, k@) == self.first_of_kind(kids@.skip(j as int), k@),
            decreases kids@.len() - j,
        {
            let c = kids[j];
            assert(i < c < self.nodes@.len());
            assert(kids@.skip(j as int).drop_first() =~= kids@.skip(j + 1));
            if self.is(c, k) {
                return Some(c);
            }
            j = j + 1;
        }
        None
    }

    /// The children of `i`, in order.
    pub fn children_of(&self, i: usize) -> (r: Vec<usize>)
        requires
            self.wf(),
            i < self.nodes@.len(),
        ensures
            r@ == self.kids(i as int),
            forall|j: int| 0 <= j < r@.len() ==> i < #[trigger] r@[j] < self.nodes@.len(),
    {
        self.children[i].clone()
    }

    /// The named children of `i`, in order.
    pub fn named_children(&self, i: usize) -> (r: Vec<usize>)
        requires
            self.wf(),
            i < self.nodes@.len(),
        ensures
            r@ == self.named_kids(i as int),
            forall|j: int| 0 <= j < r@.len() ==> i < #[trigger] r@[j] < self.nodes@.len(),
    {
        let kids = &self.children[i];
        let mut out: Vec<usize> = Vec::new();
        let mut j: usize = 0;
        while j < kids.len()
            invariant
                self.wf(),
                i < self.nodes@.len(),
                kids@ == self.kids(i as int),
                0 <= j <= kids@.len(),
                out@ == self.named_only(kids@.take(j as int)),
                forall|k: int| 0 <= k < out@.len() ==> i < #[trigger] out@[k] < self.nodes@.len(),
            decreases kids@.len() - j,
        {
            let c = kids[j];
            assert(kids@.take(j + 1).drop_last() =~= kids@.take(j as int));
            if self.nodes[c].named {
                out.push(c);
            }
            j = j + 1;
        }
        assert(kids@.take(kids@.len() as int) =~= kids@);
        out
    }

    /// The named nodes of `s`, in order.
    pub open spec fn named_only(&self, s: Seq<usize>) -> Seq<usize>
        decreases s.len(),
    {
        if s.len() == 0 {
            s
        } else {
            let rest = self.named_only(s.drop_last());
            if 0 <= s.last() < self.nodes@.len() && self.nodes@[s.last() as int].named {
                rest.push(s.last())
            } else {
                rest
            }
        }
    }

    pub open spec fn named_kids(&self, i: int) -> Seq<usize> {
        self.named_only(self.kids(i))
    }

    /// The `k`-th named child of `i`.
    pub fn named_child(&self, i: usize, k: usize) -> (r: Option<usize>)
        requires
            self.wf(),
            i < self.nodes@.len(),
        ensures
            r == (if k < self.named_kids(i as int).len() { Some(self.named_kids(i as int)[k as int]) } else { None }),
            r matches Some(c) ==> i < c < self.nodes@.len(),
    {
        let v = self.named_children(i);
        if k < v.len() {
            Some(v[k])
        } else {
            None
        }
    }

    /// The text node `i` spans.
    pub fn text(&self, i: usize) -> (r: String)
        requires
            i < self.nodes@.len(),
        ensures
            r@ == self.text_of(i as int),
    {
        let s = self.nodes[i].start_byte;
        let e = self.nodes[i].end_byte;
        if s <= e && e <= self.src.len() {
            let b = slice_subrange(self.src.as_slice(), s, e);
            match utf8_str(b) {
                Some(t) => {
                    proof {
                        decode_utf8_encode_utf8(b@);
                        encode_utf8_decode_utf8(t@);
                    }
                    t.to_string()
                },
                None => String::new(),
            }
        } else {
            String::new()
        }
    }

    /// The source text between two byte offsets, when the range is in bounds
    /// and holds valid UTF-8.
    pub open spec fn span_of(&self, s: int, e: int) -> Option<Seq<char>> {
        if 0 <= s <= e <= self.src@.len() && valid_utf8(self.src@.subrange(s, e)) {
            Some(decode_utf8(self.src@.subrange(s, e)))
        } else {
            None
        }
    }

    pub fn span(&self, s: usize, e: usize) -> (r: Option<String>)
        ensures
            r matches Some(t) ==> self.span_of(s as int, e as int) == Some(t@),
            r is None ==> self.span_of(s as int, e as int) is None,
    {
        if s <= e && e <= self.src.len() {
            let b = slice_subrange(self.src.as_slice(), s, e);
            match utf8_str(b) {
                Some(t) => {
                    proof {
                        decode_utf8_encode_utf8(b@);
                        encode_utf8_decode_utf8(t@);
                    }
                    Some(t.to_string())
                },
                None => None,
            }
        } else {
            None
        }
    }

    /// 0-based row of byte offset `b`.
    pub fn row(&self, b: usize) -> (r: usize)
        requires
            self.wf(),
        ensures
            r == self.row_at(b as int),
    {
        if b <= self.src.len() { self.rows[b] } else { self.rows[self.src.len()] }
    }

    pub fn line(&self, i: usize) -> (r: i64)
        requires
            self.wf(),
            i < self.nodes@.len(),
        ensures
            r == self.line_of(i as int),
    {
        let row = self.row(self.nodes[i].start_byte);
        if (row as u64) < i64::MAX as u64 { (row as u64 + 1) as i64 } else { i64::MAX }
    }

    pub fn end_line(&self, i: usize) -> (r: i64)
        requires
            self.wf(),
            i < self.nodes@.len(),
        ensures
            r == self.end_line_of(i as int),
    {
        let row = self.row(self.nodes[i].end_byte);
        if (row as u64) < i64::MAX as u64 { (row as u64 + 1) as i64 } else { i64::MAX }
    }

    pub fn start(&self, i: usize) -> (r: i64)
        requires
            i < self.nodes@.len(),
        ensures
            r == self.start_of(i as int),
    {
        to_i64(self.nodes[i].start_byte)
    }

    pub fn end(&self, i: usize) -> (r: i64)
        requires
            i < self.nodes@.len(),
        ensures
            r == self.end_of(i as int),
    {
        to_i64(self.nodes[i].end_byte)
    }

    pub fn has_error(&self) -> (r: bool)
        ensures
            r == self.spec_has_error(),
    {
        let mut i: usize = 0;
        while i < self.nodes.len()
            invariant
                0 <= i <= self.nodes@.len(),
                forall|k: int| 0 <= k < i ==> !(#[trigger] self.nodes@[k]).error,
            decreases self.nodes@.len() - i,
        {
            if self.nodes[i].error {
                return true;
            }
            i = i + 1;
        }
        false
    }
}

/// `rows[b]` = line feeds among the first `b` bytes, for every `b` up to the end.
pub fn row_table(src: &Vec<u8>) -> (rows: Vec<usize>)
    ensures
        rows@.len() == src@.len() + 1,
        forall|b: int| 0 <= b <= src@.len() ==> #[trigger] rows@[b] == newlines(src@.take(b)),
{
    let mut rows: Vec<usize> = Vec::new();
    let mut n: usize = 0;
    rows.push(0);
    assert(src@.take(0) =~= Seq::<u8>::empty());
    let mut k: usize = 0;
    while k < src.len()
        invariant
            0 <= k <= src@.len(),
            rows@.len() == k + 1,
            n == newlines(src@.take(k as int)),
            n <= k,
            forall|b: int| 0 <= b <= k ==> #[trigger] rows@[b] == newlines(src@.take(b)),
        decreases src@.len() - k,
    {
        assert(src@.take(k + 1).drop_last() =~= src@.take(k as int));
        if src[k] == 10u8 {
            n = n + 1;
        }
        k = k + 1;
        rows.push(n);
    }
    rows
}

/// Parse `source` with `grammar`, or `None` when the parser yields no tree.
pub fn parse_syntax(grammar: Grammar, source: &str) -> (r: Option<SyntaxTree>)
    ensures
        r is Some <==> syntax_of(grammar, source@) is Some,
        r matches Some(t) ==> {
            &&& t.wf()
            &&& t.exact()
            &&& t.src@ == source.spec_bytes()
            &&& syntax_of(grammar, source@) == Some(raw_nodes_view(t.nodes@))
        },
{
    match ts_parse(grammar, source) {
        Some(nodes) => {
            let bytes = vstd::slice::slice_to_vec(source.as_bytes());
            Some(SyntaxTree::from_preorder(bytes, nodes))
        },
        None => None,
    }
}

} // verus!

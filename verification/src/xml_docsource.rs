use crate::{
    contains_fold, contains_insensitive_ascii, name_in, names_subset, same_name_set,
    starts_with_fold, starts_with_insensitive_ascii, vec_push_deep, DocEntry, DocEntryView,
    DocSource, Errors, Lowercase,
};
use crate::codec::{
    dec_opt_str, dec_pair_list, dec_str, dec_u64, enc_opt_str, enc_pair_list, enc_str, enc_u64,
    lemma_dec_opt_str_at, lemma_dec_pair_list_at, lemma_dec_str_at, lemma_dec_u64_at,
    lemma_split_concat_at, opt_str_bounded, pairs_bounded, read_opt_str, read_pair_list,
    read_str, read_u64, str_bounded, write_opt_str, write_pair_list, write_str, write_u64, Cache,
};
use vstd::pervasive::VecAdditionalExecFns;
use vstd::prelude::*;
use vstd::string::StrSliceExecFns;
use vstd::string::StringExecFns;
use vstd::utf8::encode_utf8;

verus! {

/// Index of the first newline in `s`, or `s.len()` when there is none.
pub open spec fn first_nl(s: Seq<char>) -> int
    decreases s.len(),
{
    if s.len() == 0 {
        0
    } else if s[0] == '\n' {
        0
    } else {
        1 + first_nl(s.drop_first())
    }
}

/// `first_nl` points at the first newline, or just past the end.
pub proof fn lemma_first_nl_range(s: Seq<char>)
    ensures
        0 <= first_nl(s) <= s.len(),
        first_nl(s) < s.len() ==> s[first_nl(s)] == '\n',
        forall|k: int| 0 <= k < first_nl(s) ==> s[k] != '\n',
    decreases s.len(),
{
    if s.len() > 0 && s[0] != '\n' {
        lemma_first_nl_range(s.drop_first());
        assert forall|k: int| 0 <= k < first_nl(s) implies s[k] != '\n' by {
            if k > 0 {
                assert(s.drop_first()[k - 1] != '\n');
            }
        }
    }
}

/// A newline-free stretch ending at a newline or at the end determines `first_nl`.
pub proof fn lemma_first_nl_value(s: Seq<char>, m: int)
    requires
        0 <= m <= s.len(),
        forall|k: int| 0 <= k < m ==> s[k] != '\n',
        m < s.len() ==> s[m] == '\n',
    ensures
        first_nl(s) == m,
    decreases m,
{
    if m > 0 {
        lemma_first_nl_value(s.drop_first(), m - 1);
    }
}

/// One line with a trailing carriage return removed.
pub open spec fn strip_cr(line: Seq<char>) -> Seq<char> {
    if line.len() > 0 && line[line.len() - 1] == '\r' {
        line.drop_last()
    } else {
        line
    }
}

/// The lines of `s`: maximal newline-free stretches, each with a trailing
/// carriage return removed; a final newline produces no empty last line.
pub open spec fn split_lines(s: Seq<char>) -> Seq<Seq<char>>
    decreases s.len(),
    via split_lines_decreases
{
    if s.len() == 0 {
        Seq::empty()
    } else {
        let i = first_nl(s);
        if i == s.len() {
            seq![strip_cr(s)]
        } else {
            seq![strip_cr(s.take(i))] + split_lines(s.skip(i + 1))
        }
    }
}

#[via_fn]
proof fn split_lines_decreases(s: Seq<char>) {
    lemma_first_nl_range(s);
}

/// Splits a string in lines, as `split_lines` describes.
pub fn split_lines_exec(s: &str) -> (r: Vec<String>)
    ensures
        r.deep_view() == split_lines(s@),
{
    let n = s.unicode_len();
    let mut r: Vec<String> = Vec::new();
    let mut a: usize = 0;
    let mut i: usize = 0;
    proof {
        assert(s@.skip(0) =~= s@);
        assert(r.deep_view() + split_lines(s@) =~= split_lines(s@));
    }
    while i < n
        invariant
            n == s@.len(),
            a <= i <= n,
            split_lines(s@) == r.deep_view() + split_lines(s@.skip(a as int)),
            forall|k: int| a <= k < i ==> s@[k] != '\n',
        decreases n - i,
    {
        if s.get_char(i) == '\n' {
            let piece = line_of(s, a, i);
            proof {
                let rest = s@.skip(a as int);
                lemma_first_nl_value(rest, i - a);
                assert(rest.take(i - a) =~= s@.subrange(a as int, i as int));
                assert(rest.skip(i - a + 1) =~= s@.skip(i + 1));
                assert((r.deep_view() + split_lines(rest)).skip(r.deep_view().len() as int)
                    =~= split_lines(rest));
            }
            let ghost pre = r.deep_view();
            r.push(piece);
            proof {
                assert(r.deep_view() =~= pre.push(strip_cr(s@.subrange(a as int, i as int))));
                assert(r.deep_view() + split_lines(s@.skip(i + 1)) =~= split_lines(s@));
            }
            a = i + 1;
        }
        i += 1;
    }
    if a < n {
        let piece = line_of(s, a, n);
        proof {
            let rest = s@.skip(a as int);
            lemma_first_nl_value(rest, n - a);
            assert(rest.take(n - a) =~= rest);
            assert(rest =~= s@.subrange(a as int, n as int));
        }
        let ghost pre = r.deep_view();
        r.push(piece);
        proof {
            assert(r.deep_view() =~= pre.push(strip_cr(s@.subrange(a as int, n as int))));
            assert(r.deep_view() =~= split_lines(s@));
        }
    } else {
        proof {
            assert(s@.skip(a as int) =~= Seq::<char>::empty());
            assert(r.deep_view() + split_lines(s@.skip(a as int)) =~= r.deep_view());
        }
    }
    r
}

/// The stretch `[a, b)` of `s` with a trailing carriage return removed.
fn line_of(s: &str, a: usize, b: usize) -> (r: String)
    requires
        a <= b <= s@.len(),
    ensures
        r@ == strip_cr(s@.subrange(a as int, b as int)),
{
    let end = if b > a && s.get_char(b - 1) == '\r' {
        b - 1
    } else {
        b
    };
    let piece = s.substring_char(a, end);
    proof {
        let seg = s@.subrange(a as int, b as int);
        if b > a && s@[b - 1] == '\r' {
            assert(seg.drop_last() =~= s@.subrange(a as int, b - 1));
        }
    }
    piece.to_owned()
}

/// The views of a sequence of string pairs.
pub open spec fn pairs_view(s: Seq<(String, String)>) -> Seq<(Seq<char>, Seq<char>)> {
    Seq::new(s.len(), |i: int| (s[i].0@, s[i].1@))
}

/// Mathematical model of one manual entry for a function.
#[verifier::ext_equal]
pub struct XmlFuncDocumentationView {
    pub name: Seq<char>,
    pub description: Seq<char>,
    pub fn_type: Option<Seq<char>>,
    pub args: Seq<(Seq<char>, Seq<char>)>,
    pub example: Option<Seq<char>>,
}

/// Documentation of one function from a manual page: name, description,
/// optional declared type, named arguments, and an optional example.
#[derive(Debug, PartialEq, Eq)]
pub struct XmlFuncDocumentation {
    name: String,
    description: String,
    fn_type: Option<String>,
    args: Vec<(String, String)>,
    example: Option<String>,
}

impl View for XmlFuncDocumentation {
    type V = XmlFuncDocumentationView;

    closed spec fn view(&self) -> XmlFuncDocumentationView {
        XmlFuncDocumentationView {
            name: self.name@,
            description: self.description@,
            fn_type: self.fn_type.deep_view(),
            args: pairs_view(self.args@),
            example: self.example.deep_view(),
        }
    }
}

impl DeepView for XmlFuncDocumentation {
    type V = XmlFuncDocumentationView;

    open spec fn deep_view(&self) -> XmlFuncDocumentationView {
        self.view()
    }
}

/// Clones string pairs, keeping their views.
fn clone_pair_vec(v: &Vec<(String, String)>) -> (r: Vec<(String, String)>)
    ensures
        pairs_view(r@) == pairs_view(v@),
{
    let mut r: Vec<(String, String)> = Vec::new();
    let mut i: usize = 0;
    while i < v.len()
        invariant
            i <= v@.len(),
            r@.len() == i,
            pairs_view(r@) =~= pairs_view(v@.take(i as int)),
        decreases v@.len() - i,
    {
        let a = v[i].0.clone();
        let b = v[i].1.clone();
        assert(a@ == v@[i as int].0@ && b@ == v@[i as int].1@);
        let ghost pushed = (a, b);
        let ghost pre = r@;
        r.push((a, b));
        proof {
            assert(r@ == pre.push(pushed));
            assert forall|k: int| 0 <= k < i + 1 implies pairs_view(r@)[k] == pairs_view(
                v@.take(i + 1),
            )[k] by {
                if k < i {
                    assert(pairs_view(pre)[k] == pairs_view(v@.take(i as int))[k]);
                    assert(r@[k] == pre[k]);
                    assert(v@.take(i + 1)[k] == v@[k] && v@.take(i as int)[k] == v@[k]);
                } else {
                    assert(r@[k] == pushed);
                    assert(pushed.0@ == v@[i as int].0@ && pushed.1@ == v@[i as int].1@);
                    assert(v@.take(i + 1)[k] == v@[i as int]);
                }
            }
            assert(pairs_view(r@) =~= pairs_view(v@.take(i + 1)));
        }
        i += 1;
    }
    proof {
        assert(v@.take(v@.len() as int) =~= v@);
    }
    r
}

impl Clone for XmlFuncDocumentation {
    fn clone(&self) -> (r: Self)
        ensures
            r@ == self@,
    {
        let fn_type = match &self.fn_type {
            Some(t) => Some(t.clone()),
            None => None,
        };
        let example = match &self.example {
            Some(e) => Some(e.clone()),
            None => None,
        };
        let r = XmlFuncDocumentation {
            name: self.name.clone(),
            description: self.description.clone(),
            fn_type,
            args: clone_pair_vec(&self.args),
            example,
        };
        assert(r@ =~= self@);
        r
    }
}

/// The argument lines of a rendered manual entry.
pub open spec fn args_block(args: Seq<(Seq<char>, Seq<char>)>) -> Seq<char>
    decreases args.len(),
{
    if args.len() == 0 {
        Seq::empty()
    } else {
        args_block(args.drop_last()) + "  "@ + args.last().0 + ": "@ + args.last().1 + "\n"@
    }
}

/// The example lines of a rendered manual entry, each indented.
pub open spec fn example_block(lines: Seq<Seq<char>>) -> Seq<char>
    decreases lines.len(),
{
    if lines.len() == 0 {
        Seq::empty()
    } else {
        example_block(lines.drop_last()) + "  "@ + lines.last() + "\n"@
    }
}

/// The rendered documentation block of one manual entry: heading with name
/// and declared type, description, argument list and indented example.
pub open spec fn xml_pretty_spec(d: XmlFuncDocumentationView) -> Seq<char> {
    (match d.fn_type {
        Some(t) => "# "@ + d.name + " ("@ + t + ")\n"@,
        None => "# "@ + d.name + "\n"@,
    }) + d.description + "\n"@ + (if d.args.len() > 0 {
        "\nArguments:\n"@ + args_block(d.args)
    } else {
        Seq::empty()
    }) + (match d.example {
        Some(e) => "\nExample:\n"@ + example_block(split_lines(e)),
        None => Seq::empty(),
    })
}

impl XmlFuncDocumentation {
    /// Builds a manual entry from its parts.
    pub fn new(
        name: String,
        description: String,
        fn_type: Option<String>,
        args: Vec<(String, String)>,
        example: Option<String>,
    ) -> (r: Self)
        ensures
            r@ == (XmlFuncDocumentationView {
                name: name@,
                description: description@,
                fn_type: fn_type.deep_view(),
                args: pairs_view(args@),
                example: example.deep_view(),
            }),
    {
        XmlFuncDocumentation { name, description, fn_type, args, example }
    }

    pub fn name(&self) -> (r: String)
        ensures
            r@ == self@.name,
    {
        self.name.clone()
    }

    pub fn pretty_printed(&self) -> (r: String)
        ensures
            r@ == xml_pretty_spec(self@),
    {
        let mut out = String::new();
        out.append("# ");
        out.append(self.name.as_str());
        match &self.fn_type {
            Some(t) => {
                out.append(" (");
                out.append(t.as_str());
                out.append(")\n");
            },
            None => {
                out.append("\n");
            },
        }
        out.append(self.description.as_str());
        out.append("\n");
        if self.args.len() > 0 {
            out.append("\nArguments:\n");
            let ghost argviews = self@.args;
            let mut i: usize = 0;
            while i < self.args.len()
                invariant
                    i <= self.args@.len(),
                    argviews == self@.args,
                    argviews.len() == self.args@.len(),
                    out@ == old_part(self@) + "\nArguments:\n"@ + args_block(
                        argviews.take(i as int),
                    ),
                decreases self.args@.len() - i,
            {
                out.append("  ");
                out.append(self.args[i].0.as_str());
                out.append(": ");
                out.append(self.args[i].1.as_str());
                out.append("\n");
                proof {
                    assert(argviews[i as int] == (self.args@[i as int].0@, self.args@[
                        i as int].1@));
                    assert(argviews.take(i + 1).drop_last() =~= argviews.take(i as int));
                }
                i += 1;
            }
            proof {
                assert(argviews.take(argviews.len() as int) =~= argviews);
            }
        }
        match &self.example {
            Some(e) => {
                out.append("\nExample:\n");
                let lines = split_lines_exec(e.as_str());
                let ghost mid = out@;
                let mut i: usize = 0;
                while i < lines.len()
                    invariant
                        i <= lines@.len(),
                        out@ == mid + example_block(lines.deep_view().take(i as int)),
                        lines.deep_view().len() == lines@.len(),
                    decreases lines@.len() - i,
                {
                    out.append("  ");
                    out.append(lines[i].as_str());
                    out.append("\n");
                    proof {
                        let lv = lines.deep_view();
                        assert(lv.take(i + 1).drop_last() =~= lv.take(i as int));
                        assert(lv.take(i + 1).last() == lv[i as int]);
                    }
                    i += 1;
                }
                proof {
                    let lv = lines.deep_view();
                    assert(lv.take(lv.len() as int) =~= lv);
                }
            },
            None => (),
        }
        assert(out@ =~= xml_pretty_spec(self@));
        out
    }
}

/// The rendered heading and description, shared prefix of the output.
pub open spec fn old_part(d: XmlFuncDocumentationView) -> Seq<char> {
    (match d.fn_type {
        Some(t) => "# "@ + d.name + " ("@ + t + ")\n"@,
        None => "# "@ + d.name + "\n"@,
    }) + d.description + "\n"@
}

/// Whether two strings hold the same characters.
pub fn str_eq(a: &str, b: &str) -> (r: bool)
    ensures
        r == (a@ == b@),
{
    let n = a.unicode_len();
    if n != b.unicode_len() {
        proof {
            assert(a@.len() != b@.len());
        }
        return false;
    }
    let mut i: usize = 0;
    while i < n
        invariant
            n == a@.len() && n == b@.len(),
            i <= n,
            forall|k: int| 0 <= k < i ==> a@[k] == b@[k],
        decreases n - i,
    {
        if a.get_char(i) != b.get_char(i) {
            return false;
        }
        i += 1;
    }
    proof {
        assert(a@ =~= b@);
    }
    true
}

/// The sort of one node of a parsed XML document.
#[derive(Debug, Clone, Copy, PartialEq, Eq, Structural)]
pub enum XmlNodeKind {
    /// An element, with a tag name.
    Element,
    /// A text node, with its content.
    Text,
    /// A comment node, with its content.
    Comment,
    /// Anything else (a processing instruction, the document root marker).
    Other,
}

/// One node of a parsed XML document, in document order, with a link to its
/// parent.
#[derive(Debug, PartialEq, Eq)]
pub struct XmlNode {
    pub kind: XmlNodeKind,
    /// The tag name of an element; empty for other sorts.
    pub name: String,
    /// The content of a text or comment node; empty for other sorts.
    pub content: String,
    pub parent: Option<usize>,
}

/// A parsed XML document, flattened to an arena: the nodes in document order,
/// so every parent stands before its children.
#[derive(Debug, PartialEq, Eq)]
pub struct XmlTree {
    pub nodes: Vec<XmlNode>,
}

/// Parent links always point backward, at a node that stands earlier in
/// document order.
pub open spec fn nodes_wf(nodes: Seq<XmlNode>) -> bool {
    forall|i: int|
        0 <= i < nodes.len() ==> ((#[trigger] nodes[i]).parent matches Some(p) ==> (p as int) < i)
}

impl XmlTree {
    pub open spec fn wf(&self) -> bool {
        nodes_wf(self.nodes@)
    }

    /// Checks the arena's validity at run time.
    pub fn wf_check(&self) -> (r: bool)
        ensures
            r == self.wf(),
    {
        let mut i: usize = 0;
        while i < self.nodes.len()
            invariant
                i <= self.nodes@.len(),
                forall|k: int|
                    0 <= k < i ==> ((#[trigger] self.nodes@[k]).parent matches Some(p) ==> (
                    p as int) < k),
            decreases self.nodes@.len() - i,
        {
            let ok = match self.nodes[i].parent {
                Some(p) => p < i,
                None => true,
            };
            if !ok {
                assert(!nodes_wf(self.nodes@));
                return false;
            }
            i += 1;
        }
        true
    }
}

/// The node is a direct child of the node at `n`.
pub open spec fn is_child_of(nd: XmlNode, n: int) -> bool {
    match nd.parent {
        Some(p) => p as int == n,
        None => false,
    }
}

/// The node at `d` lies in the subtree of the node at `s` (itself included).
pub open spec fn in_subtree(nodes: Seq<XmlNode>, d: int, s: int) -> bool
    decreases d,
    when 0 <= d < nodes.len() && nodes_wf(nodes)
{
    if d == s {
        true
    } else {
        match nodes[d].parent {
            Some(q) => in_subtree(nodes, q as int, s),
            None => false,
        }
    }
}

/// Whether the node at `d` lies in the subtree of the node at `s`.
fn in_subtree_exec(tree: &XmlTree, d: usize, s: usize) -> (r: bool)
    requires
        tree.wf(),
        d < tree.nodes@.len(),
    ensures
        r == in_subtree(tree.nodes@, d as int, s as int),
{
    let mut x = d;
    loop
        invariant
            tree.wf(),
            x < tree.nodes@.len(),
            in_subtree(tree.nodes@, d as int, s as int) == in_subtree(
                tree.nodes@,
                x as int,
                s as int,
            ),
        decreases x,
    {
        if x == s {
            return true;
        }
        match tree.nodes[x].parent {
            Some(q) => {
                x = q;
            },
            None => {
                return false;
            },
        }
    }
}

/// The first child of the node at `n`, at position `j` of the scan or later.
pub open spec fn first_child_from(nodes: Seq<XmlNode>, n: int, j: int) -> Option<int>
    decreases nodes.len() - j,
    when 0 <= j <= nodes.len()
{
    if j == nodes.len() {
        None
    } else if is_child_of(nodes[j], n) {
        Some(j)
    } else {
        first_child_from(nodes, n, j + 1)
    }
}

/// The first element child of the node at `n`, at position `j` or later.
pub open spec fn first_elem_child_from(nodes: Seq<XmlNode>, n: int, j: int) -> Option<int>
    decreases nodes.len() - j,
    when 0 <= j <= nodes.len()
{
    if j == nodes.len() {
        None
    } else if is_child_of(nodes[j], n) && nodes[j].kind == XmlNodeKind::Element {
        Some(j)
    } else {
        first_elem_child_from(nodes, n, j + 1)
    }
}

/// The text of the node at `i`: a text or comment node's own content; for an
/// element, the content of its first child provided that child is a text
/// node; nothing otherwise.
pub open spec fn node_text(nodes: Seq<XmlNode>, i: int) -> Option<Seq<char>> {
    match nodes[i].kind {
        XmlNodeKind::Element => match first_child_from(nodes, i, 0) {
            Some(c) => if nodes[c].kind == XmlNodeKind::Text {
                Some(nodes[c].content@)
            } else {
                None
            },
            None => None,
        },
        XmlNodeKind::Text => Some(nodes[i].content@),
        XmlNodeKind::Comment => Some(nodes[i].content@),
        XmlNodeKind::Other => None,
    }
}

/// The node is an element with this tag name.
pub open spec fn is_tag(nd: XmlNode, name: Seq<char>) -> bool {
    nd.kind == XmlNodeKind::Element && nd.name@ == name
}

/// Finds the first child of the node at `n`.
fn first_child_exec(tree: &XmlTree, n: usize) -> (r: Option<usize>)
    requires
        tree.wf(),
    ensures
        match r {
            Some(c) => first_child_from(tree.nodes@, n as int, 0) == Some(c as int) && c
                < tree.nodes@.len(),
            None => first_child_from(tree.nodes@, n as int, 0) is None,
        },
{
    let mut j: usize = 0;
    while j < tree.nodes.len()
        invariant
            j <= tree.nodes@.len(),
            first_child_from(tree.nodes@, n as int, 0) == first_child_from(
                tree.nodes@,
                n as int,
                j as int,
            ),
        decreases tree.nodes@.len() - j,
    {
        let hit = match tree.nodes[j].parent {
            Some(p) => p == n,
            None => false,
        };
        if hit {
            return Some(j);
        }
        j += 1;
    }
    None
}

/// Finds the first element child of the node at `n`.
fn first_elem_child_exec(tree: &XmlTree, n: usize) -> (r: Option<usize>)
    requires
        tree.wf(),
    ensures
        match r {
            Some(c) => first_elem_child_from(tree.nodes@, n as int, 0) == Some(c as int) && c
                < tree.nodes@.len(),
            None => first_elem_child_from(tree.nodes@, n as int, 0) is None,
        },
{
    let mut j: usize = 0;
    while j < tree.nodes.len()
        invariant
            j <= tree.nodes@.len(),
            first_elem_child_from(tree.nodes@, n as int, 0) == first_elem_child_from(
                tree.nodes@,
                n as int,
                j as int,
            ),
        decreases tree.nodes@.len() - j,
    {
        let is_elem = match tree.nodes[j].kind {
            XmlNodeKind::Element => true,
            _ => false,
        };
        let hit = is_elem && match tree.nodes[j].parent {
            Some(p) => p == n,
            None => false,
        };
        if hit {
            return Some(j);
        }
        j += 1;
    }
    None
}

/// The text of the node at `i`, as `node_text` describes.
fn node_text_exec(tree: &XmlTree, i: usize) -> (r: Option<String>)
    requires
        tree.wf(),
        i < tree.nodes@.len(),
    ensures
        r.deep_view() == node_text(tree.nodes@, i as int),
{
    match tree.nodes[i].kind {
        XmlNodeKind::Element => {
            match first_child_exec(tree, i) {
                Some(c) => {
                    match tree.nodes[c].kind {
                        XmlNodeKind::Text => Some(tree.nodes[c].content.clone()),
                        _ => None,
                    }
                },
                None => None,
            }
        },
        XmlNodeKind::Text => Some(tree.nodes[i].content.clone()),
        XmlNodeKind::Comment => Some(tree.nodes[i].content.clone()),
        XmlNodeKind::Other => None,
    }
}

/// The first node in the subtree of `s`, at position `j` or later, that is an
/// element with the given tag name.
pub open spec fn first_desc_tag_from(nodes: Seq<XmlNode>, s: int, name: Seq<char>, j: int) -> Option<
    int,
>
    decreases nodes.len() - j,
    when 0 <= j <= nodes.len() && nodes_wf(nodes)
{
    if j == nodes.len() {
        None
    } else if in_subtree(nodes, j, s) && is_tag(nodes[j], name) {
        Some(j)
    } else {
        first_desc_tag_from(nodes, s, name, j + 1)
    }
}

/// Finds the first descendant of `s` (itself included) that is an element
/// with the given tag name.
fn find_desc_tag(tree: &XmlTree, s: usize, name: &str) -> (r: Option<usize>)
    requires
        tree.wf(),
    ensures
        match r {
            Some(d) => first_desc_tag_from(tree.nodes@, s as int, name@, 0) == Some(d as int) && d
                < tree.nodes@.len(),
            None => first_desc_tag_from(tree.nodes@, s as int, name@, 0) is None,
        },
{
    let mut j: usize = 0;
    while j < tree.nodes.len()
        invariant
            tree.wf(),
            j <= tree.nodes@.len(),
            first_desc_tag_from(tree.nodes@, s as int, name@, 0) == first_desc_tag_from(
                tree.nodes@,
                s as int,
                name@,
                j as int,
            ),
        decreases tree.nodes@.len() - j,
    {
        let is_elem = match tree.nodes[j].kind {
            XmlNodeKind::Element => true,
            _ => false,
        };
        if is_elem && str_eq(tree.nodes[j].name.as_str(), name) && in_subtree_exec(tree, j, s) {
            return Some(j);
        }
        j += 1;
    }
    None
}

/// The node is a `subtitle` element whose first element child is a `literal`.
pub open spec fn subtitle_with_literal(nodes: Seq<XmlNode>, d: int) -> bool {
    is_tag(nodes[d], "subtitle"@) && match first_elem_child_from(nodes, d, 0) {
        Some(c) => is_tag(nodes[c], "literal"@),
        None => false,
    }
}

/// The first descendant of `s`, at position `j` or later, that is a subtitle
/// carrying a literal.
pub open spec fn first_subtitle_from(nodes: Seq<XmlNode>, s: int, j: int) -> Option<int>
    decreases nodes.len() - j,
    when 0 <= j <= nodes.len() && nodes_wf(nodes)
{
    if j == nodes.len() {
        None
    } else if in_subtree(nodes, j, s) && subtitle_with_literal(nodes, j) {
        Some(j)
    } else {
        first_subtitle_from(nodes, s, j + 1)
    }
}

/// The declared type of the function section at `s`: the text of the literal
/// under the first subtitle descendant that carries one.
pub open spec fn fn_type_spec(nodes: Seq<XmlNode>, s: int) -> Option<Seq<char>> {
    match first_subtitle_from(nodes, s, 0) {
        Some(d) => match first_elem_child_from(nodes, d, 0) {
            Some(c) => node_text(nodes, c),
            None => None,
        },
        None => None,
    }
}

/// The argument pair of one entry of a variable list: the texts of its first
/// `varname` and first `para` descendants, provided both exist and have text.
pub open spec fn arg_of_entry(nodes: Seq<XmlNode>, e: int) -> Option<(Seq<char>, Seq<char>)> {
    let vn = match first_desc_tag_from(nodes, e, "varname"@, 0) {
        Some(v) => node_text(nodes, v),
        None => None,
    };
    let pa = match first_desc_tag_from(nodes, e, "para"@, 0) {
        Some(p) => node_text(nodes, p),
        None => None,
    };
    match vn {
        Some(v) => match pa {
            Some(p) => Some((v, p)),
            None => None,
        },
        None => None,
    }
}

/// The argument pairs of the element children of `list` among the first `j`
/// nodes, in document order.
pub open spec fn args_upto(nodes: Seq<XmlNode>, list: int, j: int) -> Seq<(Seq<char>, Seq<char>)>
    decreases j,
    when 0 <= j <= nodes.len()
{
    if j <= 0 {
        Seq::empty()
    } else {
        let rest = args_upto(nodes, list, j - 1);
        let t = j - 1;
        if is_child_of(nodes[t], list) && nodes[t].kind == XmlNodeKind::Element {
            match arg_of_entry(nodes, t) {
                Some(p) => rest.push(p),
                None => rest,
            }
        } else {
            rest
        }
    }
}

/// The argument pairs of the function section at `s`: those of its first
/// `variablelist` descendant, or none at all without one.
pub open spec fn args_spec(nodes: Seq<XmlNode>, s: int) -> Seq<(Seq<char>, Seq<char>)> {
    match first_desc_tag_from(nodes, s, "variablelist"@, 0) {
        Some(list) => args_upto(nodes, list, nodes.len() as int),
        None => Seq::empty(),
    }
}

/// The texts of the strict descendants of `pl` among the first `j` nodes,
/// concatenated in document order; the node itself does not count.
pub open spec fn texts_upto(nodes: Seq<XmlNode>, pl: int, j: int) -> Seq<char>
    decreases j,
    when 0 <= j <= nodes.len() && nodes_wf(nodes)
{
    if j <= 0 {
        Seq::empty()
    } else {
        let rest = texts_upto(nodes, pl, j - 1);
        let t = j - 1;
        if t != pl && in_subtree(nodes, t, pl) {
            match node_text(nodes, t) {
                Some(tx) => rest + tx,
                None => rest,
            }
        } else {
            rest
        }
    }
}

/// The example of the function section at `s`: the concatenated text of every
/// descendant of the first `programlisting` found inside its first `example`
/// descendant.
pub open spec fn example_spec(nodes: Seq<XmlNode>, s: int) -> Option<Seq<char>> {
    match first_desc_tag_from(nodes, s, "example"@, 0) {
        Some(ex) => match first_desc_tag_from(nodes, ex, "programlisting"@, 0) {
            Some(pl) => Some(texts_upto(nodes, pl, nodes.len() as int)),
            None => None,
        },
        None => None,
    }
}

/// The manual entry of the function section at `s`: name from the first
/// element child of its first element child, description from its first
/// `para` descendant, and the optional declared type, arguments and example;
/// nothing when name or description is missing.
pub open spec fn from_section_spec(nodes: Seq<XmlNode>, s: int) -> Option<
    XmlFuncDocumentationView,
> {
    let name = match first_elem_child_from(nodes, s, 0) {
        Some(t) => match first_elem_child_from(nodes, t, 0) {
            Some(u) => node_text(nodes, u),
            None => None,
        },
        None => None,
    };
    match name {
        None => None,
        Some(nm) => {
            let desc = match first_desc_tag_from(nodes, s, "para"@, 0) {
                Some(p) => node_text(nodes, p),
                None => None,
            };
            match desc {
                None => None,
                Some(ds) => Some(
                    XmlFuncDocumentationView {
                        name: nm,
                        description: ds,
                        fn_type: fn_type_spec(nodes, s),
                        args: args_spec(nodes, s),
                        example: example_spec(nodes, s),
                    },
                ),
            }
        },
    }
}

impl XmlFuncDocumentation {
    /// Extracts the manual entry of the function section at `s`, or nothing
    /// when the section misses a name or a description.
    pub fn from_function_section_node(tree: &XmlTree, s: usize) -> (r: Option<
        XmlFuncDocumentation,
    >)
        requires
            tree.wf(),
            s < tree.nodes@.len(),
        ensures
            r.deep_view() == from_section_spec(tree.nodes@, s as int),
    {
        let name = match first_elem_child_exec(tree, s) {
            Some(t) => match first_elem_child_exec(tree, t) {
                Some(u) => node_text_exec(tree, u),
                None => None,
            },
            None => None,
        };
        let name = match name {
            Some(nm) => nm,
            None => {
                return None;
            },
        };
        let desc = match find_desc_tag(tree, s, "para") {
            Some(p) => node_text_exec(tree, p),
            None => None,
        };
        let desc = match desc {
            Some(ds) => ds,
            None => {
                return None;
            },
        };
        let fn_type = match find_subtitle_with_literal(tree, s) {
            Some(d) => match first_elem_child_exec(tree, d) {
                Some(c) => node_text_exec(tree, c),
                None => None,
            },
            None => None,
        };
        let args = match find_desc_tag(tree, s, "variablelist") {
            Some(list) => collect_args(tree, list),
            None => Vec::new(),
        };
        let example = match find_desc_tag(tree, s, "example") {
            Some(ex) => match find_desc_tag(tree, ex, "programlisting") {
                Some(pl) => Some(collect_texts(tree, pl)),
                None => None,
            },
            None => None,
        };
        let doc = XmlFuncDocumentation::new(name, desc, fn_type, args, example);
        assert(doc@ =~= from_section_spec(tree.nodes@, s as int).unwrap());
        Some(doc)
    }
}

/// Finds the first descendant of `s` that is a subtitle carrying a literal.
fn find_subtitle_with_literal(tree: &XmlTree, s: usize) -> (r: Option<usize>)
    requires
        tree.wf(),
    ensures
        match r {
            Some(d) => first_subtitle_from(tree.nodes@, s as int, 0) == Some(d as int) && d
                < tree.nodes@.len(),
            None => first_subtitle_from(tree.nodes@, s as int, 0) is None,
        },
{
    let mut j: usize = 0;
    while j < tree.nodes.len()
        invariant
            tree.wf(),
            j <= tree.nodes@.len(),
            first_subtitle_from(tree.nodes@, s as int, 0) == first_subtitle_from(
                tree.nodes@,
                s as int,
                j as int,
            ),
        decreases tree.nodes@.len() - j,
    {
        let is_sub = match tree.nodes[j].kind {
            XmlNodeKind::Element => str_eq(tree.nodes[j].name.as_str(), "subtitle"),
            _ => false,
        };
        let hit = is_sub && match first_elem_child_exec(tree, j) {
            Some(c) => match tree.nodes[c].kind {
                XmlNodeKind::Element => str_eq(tree.nodes[c].name.as_str(), "literal"),
                _ => false,
            },
            None => false,
        };
        if hit && in_subtree_exec(tree, j, s) {
            assert(subtitle_with_literal(tree.nodes@, j as int));
            return Some(j);
        }
        proof {
            assert(!(in_subtree(tree.nodes@, j as int, s as int) && subtitle_with_literal(
                tree.nodes@,
                j as int,
            )));
        }
        j += 1;
    }
    None
}

/// Collects the argument pairs of the element children of `list`.
fn collect_args(tree: &XmlTree, list: usize) -> (r: Vec<(String, String)>)
    requires
        tree.wf(),
    ensures
        pairs_view(r@) == args_upto(tree.nodes@, list as int, tree.nodes@.len() as int),
{
    let mut r: Vec<(String, String)> = Vec::new();
    let mut j: usize = 0;
    while j < tree.nodes.len()
        invariant
            tree.wf(),
            j <= tree.nodes@.len(),
            pairs_view(r@) =~= args_upto(tree.nodes@, list as int, j as int),
        decreases tree.nodes@.len() - j,
    {
        let is_entry = match tree.nodes[j].kind {
            XmlNodeKind::Element => match tree.nodes[j].parent {
                Some(p) => p == list,
                None => false,
            },
            _ => false,
        };
        if is_entry {
            let vn = match find_desc_tag(tree, j, "varname") {
                Some(v) => node_text_exec(tree, v),
                None => None,
            };
            let pa = match find_desc_tag(tree, j, "para") {
                Some(p) => node_text_exec(tree, p),
                None => None,
            };
            match (vn, pa) {
                (Some(v), Some(p)) => {
                    let ghost vv = v@;
                    let ghost pv = p@;
                    let ghost pre = r@;
                    r.push((v, p));
                    proof {
                        assert(arg_of_entry(tree.nodes@, j as int) == Some((vv, pv)));
                        assert(r@ == pre.push((r@[pre.len() as int].0, r@[pre.len() as int].1))
                            ==> true);
                        assert(pairs_view(r@) =~= args_upto(tree.nodes@, list as int, j + 1)) by {
                            assert(r@.len() == pre.len() + 1);
                            assert(forall|k: int| 0 <= k < pre.len() ==> r@[k] == pre[k]);
                            assert(r@[pre.len() as int].0@ == vv && r@[pre.len() as int].1@ == pv);
                        }
                    }
                },
                _ => {
                    proof {
                        assert(arg_of_entry(tree.nodes@, j as int) is None);
                    }
                },
            }
        }
        j += 1;
    }
    r
}

/// Concatenates the texts of the strict descendants of `pl`, in document
/// order.
fn collect_texts(tree: &XmlTree, pl: usize) -> (r: String)
    requires
        tree.wf(),
    ensures
        r@ == texts_upto(tree.nodes@, pl as int, tree.nodes@.len() as int),
{
    let mut out = String::new();
    let mut j: usize = 0;
    while j < tree.nodes.len()
        invariant
            tree.wf(),
            j <= tree.nodes@.len(),
            out@ == texts_upto(tree.nodes@, pl as int, j as int),
        decreases tree.nodes@.len() - j,
    {
        if j != pl && in_subtree_exec(tree, j, pl) {
            match node_text_exec(tree, j) {
                Some(tx) => {
                    out.append(tx.as_str());
                },
                None => (),
            }
        }
        j += 1;
    }
    out
}

/// The node at `s` is a function section: a `section` element whose first
/// element child is a `title` whose own first element child is a `function`.
pub open spec fn is_function_section(nodes: Seq<XmlNode>, s: int) -> bool {
    is_tag(nodes[s], "section"@) && match first_elem_child_from(nodes, s, 0) {
        Some(c) => is_tag(nodes[c], "title"@) && match first_elem_child_from(nodes, c, 0) {
            Some(f) => is_tag(nodes[f], "function"@),
            None => false,
        },
        None => false,
    }
}

/// The manual entries of the function sections among the first `j` nodes, in
/// document order.
pub open spec fn sections_upto(nodes: Seq<XmlNode>, j: int) -> Seq<XmlFuncDocumentationView>
    decreases j,
    when 0 <= j <= nodes.len() && nodes_wf(nodes)
{
    if j <= 0 {
        Seq::empty()
    } else {
        let rest = sections_upto(nodes, j - 1);
        let t = j - 1;
        if is_function_section(nodes, t) {
            match from_section_spec(nodes, t) {
                Some(d) => rest.push(d),
                None => rest,
            }
        } else {
            rest
        }
    }
}

/// Extracts the manual entry of every function section of a parsed document,
/// in document order; `None` when the arena is not well formed.
pub fn extract_functions(tree: &XmlTree) -> (r: Option<Vec<XmlFuncDocumentation>>)
    ensures
        r is Some <==> tree.wf(),
        tree.wf() ==> r.deep_view() == Some(
            sections_upto(tree.nodes@, tree.nodes@.len() as int),
        ),
{
    if !tree.wf_check() {
        return None;
    }
    let mut r: Vec<XmlFuncDocumentation> = Vec::new();
    let mut j: usize = 0;
    while j < tree.nodes.len()
        invariant
            tree.wf(),
            j <= tree.nodes@.len(),
            r.deep_view() == sections_upto(tree.nodes@, j as int),
        decreases tree.nodes@.len() - j,
    {
        let is_sec = match tree.nodes[j].kind {
            XmlNodeKind::Element => str_eq(tree.nodes[j].name.as_str(), "section"),
            _ => false,
        };
        let shape = is_sec && match first_elem_child_exec(tree, j) {
            Some(c) => {
                let is_title = match tree.nodes[c].kind {
                    XmlNodeKind::Element => str_eq(tree.nodes[c].name.as_str(), "title"),
                    _ => false,
                };
                is_title && match first_elem_child_exec(tree, c) {
                    Some(f) => match tree.nodes[f].kind {
                        XmlNodeKind::Element => str_eq(tree.nodes[f].name.as_str(), "function"),
                        _ => false,
                    },
                    None => false,
                }
            },
            None => false,
        };
        assert(shape == is_function_section(tree.nodes@, j as int));
        if shape {
            match XmlFuncDocumentation::from_function_section_node(tree, j) {
                Some(doc) => {
                    vec_push_deep(&mut r, doc);
                },
                None => (),
            }
        }
        j += 1;
    }
    Some(r)
}

/// The views of an index's entries: each name with its entry's model.
pub open spec fn keyed_views(entries: Seq<(String, XmlFuncDocumentation)>) -> Seq<
    (Seq<char>, XmlFuncDocumentationView),
> {
    Seq::new(entries.len(), |i: int| (entries[i].0@, entries[i].1@))
}

/// The position of the first entry with this name, at position `j` or later.
pub open spec fn first_name_pos(
    entries: Seq<(Seq<char>, XmlFuncDocumentationView)>,
    name: Seq<char>,
    j: int,
) -> Option<int>
    decreases entries.len() - j,
    when 0 <= j <= entries.len()
{
    if j == entries.len() {
        None
    } else if entries[j].0 == name {
        Some(j)
    } else {
        first_name_pos(entries, name, j + 1)
    }
}

/// The index with one entry added under its name: an entry with the same name
/// is replaced in place, a new name is appended.
pub open spec fn upsert_view(
    entries: Seq<(Seq<char>, XmlFuncDocumentationView)>,
    doc: XmlFuncDocumentationView,
) -> Seq<(Seq<char>, XmlFuncDocumentationView)> {
    match first_name_pos(entries, doc.name, 0) {
        Some(i) => entries.update(i, (doc.name, doc)),
        None => entries.push((doc.name, doc)),
    }
}

/// The index built from extracted entries, in order: a later entry with an
/// already indexed name replaces the earlier one in place.
pub open spec fn index_view(fns: Seq<XmlFuncDocumentationView>) -> Seq<
    (Seq<char>, XmlFuncDocumentationView),
>
    decreases fns.len(),
{
    if fns.len() == 0 {
        Seq::empty()
    } else {
        upsert_view(index_view(fns.drop_last()), fns.last())
    }
}

/// Keys extracted entries by name, a later entry with an already indexed name
/// replacing the earlier one.
pub fn index_functions(fns: Vec<XmlFuncDocumentation>) -> (r: Vec<(String, XmlFuncDocumentation)>)
    ensures
        keyed_views(r@) == index_view(fns.deep_view()),
{
    let mut r: Vec<(String, XmlFuncDocumentation)> = Vec::new();
    let mut fns = fns;
    let ghost orig = fns.deep_view();
    let total = fns.len();
    let mut i: usize = 0;
    proof {
        assert(orig.take(0) =~= Seq::<XmlFuncDocumentationView>::empty());
        assert(keyed_views(r@) =~= index_view(orig.take(0)));
    }
    while fns.len() > 0
        invariant
            orig.len() == total,
            fns.deep_view() =~= orig.skip(i as int),
            fns@.len() == total - i,
            0 <= i <= orig.len(),
            keyed_views(r@) == index_view(orig.take(i as int)),
        decreases fns@.len(),
    {
        let ghost pre_fns = fns.deep_view();
        let ghost pre_raw = fns@;
        let f = fns.remove(0);
        proof {
            assert(f == pre_raw[0]);
            assert(f@ == pre_fns[0] && pre_fns[0] == orig.skip(i as int)[0]);
            assert(f@ == orig[i as int]);
            assert(fns.deep_view() =~= orig.skip(i + 1)) by {
                assert(forall|k: int|
                    0 <= k < fns@.len() ==> fns.deep_view()[k] == pre_fns[k + 1]);
            }
            assert(orig.take(i + 1).drop_last() =~= orig.take(i as int));
            assert(orig.take(i + 1).last() == orig[i as int]);
        }
        let key = f.name();
        let ghost fv = f@;
        let ghost kv = keyed_views(r@);
        let mut j: usize = 0;
        let mut found = false;
        let mut pos: usize = 0;
        while j < r.len() && !found
            invariant
                r@.len() == kv.len(),
                kv == keyed_views(r@),
                j <= r@.len(),
                key@ == fv.name,
                found ==> pos < r@.len() && first_name_pos(kv, fv.name, 0) == Some(pos as int),
                !found ==> first_name_pos(kv, fv.name, 0) == first_name_pos(kv, fv.name, j as int),
            decreases r@.len() - j, (if found { 0int } else { 1int }),
        {
            if str_eq(r[j].0.as_str(), key.as_str()) {
                proof {
                    assert(kv[j as int].0 == r@[j as int].0@);
                }
                found = true;
                pos = j;
            } else {
                proof {
                    assert(kv[j as int].0 == r@[j as int].0@);
                }
                j += 1;
            }
        }
        if found {
            let t = pos;
            {
                let ghost pre_r = r@;
                let ghost pushed = (key, f);
                let mut pair = (key, f);
                r.set_and_swap(t, &mut pair);
                proof {
                    assert(r@ == pre_r.update(t as int, pushed));
                    assert forall|k: int| 0 <= k < r@.len() implies keyed_views(r@)[k]
                        == kv.update(t as int, (fv.name, fv))[k] by {
                        if k == t {
                            assert(r@[k] == pushed);
                            assert(pushed.0@ == fv.name && pushed.1@ == fv);
                        } else {
                            assert(r@[k] == pre_r[k]);
                        }
                    }
                    assert(keyed_views(r@) =~= kv.update(t as int, (fv.name, fv)));
                    assert(keyed_views(r@) == upsert_view(kv, fv));
                }
            }
        } else {
            proof {
                assert(first_name_pos(kv, fv.name, 0) is None);
            }
            let ghost pre = r@;
            r.push((key, f));
            proof {
                assert(keyed_views(r@) =~= kv.push((fv.name, fv))) by {
                    assert(r@.len() == pre.len() + 1);
                    assert(forall|k: int| 0 <= k < pre.len() ==> r@[k] == pre[k]);
                    assert(r@[pre.len() as int].0@ == fv.name && r@[pre.len() as int].1@ == fv);
                }
                assert(keyed_views(r@) == upsert_view(kv, fv));
            }
        }
        proof {
            assert(keyed_views(r@) == index_view(orig.take(i + 1)));
        }
        i += 1;
    }
    proof {
        assert(orig.take(orig.len() as int) =~= orig);
    }
    r
}

/// An index of manual entries keyed by function name; replaced wholesale on
/// every refresh.
#[derive(Debug, PartialEq, Eq)]
pub struct XmlFuncDocDatabase {
    pub functions: Vec<(String, XmlFuncDocumentation)>,
}

impl XmlFuncDocDatabase {
    /// An empty index.
    pub fn new() -> (r: Self)
        ensures
            r.functions@.len() == 0,
    {
        XmlFuncDocDatabase { functions: Vec::new() }
    }
}

impl Default for XmlFuncDocDatabase {
    fn default() -> (r: Self)
        ensures
            r.functions@.len() == 0,
    {
        XmlFuncDocDatabase::new()
    }
}

/// The indexed identifiers of a manual-entry list, in index order.
pub open spec fn function_keys(fns: Seq<(String, XmlFuncDocumentation)>) -> Seq<Seq<char>> {
    Seq::new(fns.len(), |i: int| fns[i].0@)
}

/// The entries of a manual-entry list whose name matches the folded query: a
/// prefix match when strict, a substring match when liberal.
pub open spec fn function_results(
    fns: Seq<(String, XmlFuncDocumentation)>,
    q: Seq<u8>,
    liberal: bool,
) -> Seq<DocEntryView>
    decreases fns.len(),
{
    if fns.len() == 0 {
        Seq::empty()
    } else {
        let rest = function_results(fns.drop_last(), q, liberal);
        let key = encode_utf8(fns.last().0@);
        let hit = if liberal {
            contains_fold(key, q)
        } else {
            starts_with_fold(key, q)
        };
        if hit {
            rest.push(DocEntryView::XmlFuncDoc(fns.last().1@))
        } else {
            rest
        }
    }
}

/// Whether every key of `a` also occurs in `b`.
fn function_keys_included(
    a: &Vec<(String, XmlFuncDocumentation)>,
    b: &Vec<(String, XmlFuncDocumentation)>,
) -> (r: bool)
    ensures
        r == names_subset(function_keys(a@), function_keys(b@)),
{
    let mut i: usize = 0;
    while i < a.len()
        invariant
            i <= a@.len(),
            forall|k: int|
                0 <= k < i ==> name_in(#[trigger] function_keys(a@)[k], function_keys(b@)),
        decreases a@.len() - i,
    {
        let mut j: usize = 0;
        let mut found = false;
        while j < b.len()
            invariant
                j <= b@.len(),
                i < a@.len(),
                found ==> name_in(a@[i as int].0@, function_keys(b@)),
                !found ==> forall|t: int| 0 <= t < j ==> #[trigger] b@[t].0@ != a@[i as int].0@,
            decreases b@.len() - j,
        {
            if !found && b[j].0 == a[i].0 {
                found = true;
                assert(function_keys(b@)[j as int] == b@[j as int].0@);
                assert(name_in(a@[i as int].0@, function_keys(b@)));
            }
            j += 1;
        }
        if !found {
            assert forall|t: int| 0 <= t < function_keys(b@).len() implies #[trigger] function_keys(
                b@,
            )[t] != a@[i as int].0@ by {
                assert(b@[t].0@ != a@[i as int].0@);
            }
            assert(!name_in(a@[i as int].0@, function_keys(b@)));
            assert(!names_subset(function_keys(a@), function_keys(b@))) by {
                assert(function_keys(a@)[i as int] == a@[i as int].0@);
            }
            return false;
        }
        assert(function_keys(a@)[i as int] == a@[i as int].0@);
        i += 1;
    }
    true
}

impl XmlFuncDocDatabase {
    /// Replaces the whole index with freshly extracted manual entries;
    /// reports whether the set of indexed names changed.
    pub fn update_from_functions(&mut self, fns: Vec<(String, XmlFuncDocumentation)>) -> (changed:
        bool)
        ensures
            final(self).functions == fns,
            changed == !same_name_set(
                function_keys(old(self).functions@),
                function_keys(fns@),
            ),
    {
        let same = function_keys_included(&self.functions, &fns) && function_keys_included(
            &fns,
            &self.functions,
        );
        self.functions = fns;
        !same
    }

    fn search_impl(&self, query: &Lowercase, liberal: bool) -> (r: Vec<DocEntry>)
        ensures
            r.deep_view() == function_results(self.functions@, query@, liberal),
    {
        let mut r: Vec<DocEntry> = Vec::new();
        let mut i: usize = 0;
        while i < self.functions.len()
            invariant
                i <= self.functions@.len(),
                r.deep_view() == function_results(
                    self.functions@.take(i as int),
                    query@,
                    liberal,
                ),
            decreases self.functions@.len() - i,
        {
            let key_bytes = self.functions[i].0.as_str().as_bytes();
            let hit = if liberal {
                contains_insensitive_ascii(key_bytes, query)
            } else {
                starts_with_insensitive_ascii(key_bytes, query)
            };
            proof {
                let fns = self.functions@;
                assert(fns.take(i + 1).drop_last() =~= fns.take(i as int));
                assert(fns.take(i + 1).last() == fns[i as int]);
            }
            if hit {
                vec_push_deep(&mut r, DocEntry::XmlFuncDoc(self.functions[i].1.clone()));
            }
            i += 1;
        }
        proof {
            assert(self.functions@.take(self.functions@.len() as int) =~= self.functions@);
        }
        r
    }
}

impl DocSource for XmlFuncDocDatabase {
    open spec fn keys_spec(&self) -> Seq<Seq<char>> {
        function_keys(self.functions@)
    }

    open spec fn search_spec(&self, q: Seq<u8>) -> Seq<DocEntryView> {
        function_results(self.functions@, q, false)
    }

    open spec fn search_liberal_spec(&self, q: Seq<u8>) -> Seq<DocEntryView> {
        function_results(self.functions@, q, true)
    }

    fn all_keys(&self) -> (r: Vec<&str>)
        ensures
            r.deep_view() == self.keys_spec(),
    {
        let mut r: Vec<&str> = Vec::new();
        let mut i: usize = 0;
        while i < self.functions.len()
            invariant
                i <= self.functions@.len(),
                r.deep_view() =~= function_keys(self.functions@.take(i as int)),
            decreases self.functions@.len() - i,
        {
            vec_push_deep(&mut r, self.functions[i].0.as_str());
            proof {
                assert(r.deep_view() =~= function_keys(self.functions@.take(i + 1)));
            }
            i += 1;
        }
        proof {
            assert(self.functions@.take(self.functions@.len() as int) =~= self.functions@);
            assert(r.deep_view() =~= function_keys(self.functions@));
        }
        r
    }

    fn search(&self, query: &Lowercase) -> (r: Vec<DocEntry>)
        ensures
            r.deep_view() == self.search_spec(query@),
    {
        self.search_impl(query, false)
    }

    fn search_liberal(&self, query: &Lowercase) -> (r: Vec<DocEntry>)
        ensures
            r.deep_view() == self.search_liberal_spec(query@),
    {
        self.search_impl(query, true)
    }
}

} // verus!

verus! {

impl View for XmlFuncDocDatabase {
    type V = Seq<(Seq<char>, XmlFuncDocumentationView)>;

    open spec fn view(&self) -> Seq<(Seq<char>, XmlFuncDocumentationView)> {
        keyed_views(self.functions@)
    }
}

/// One manual entry as bytes: name, description, declared type, arguments,
/// example.
pub open spec fn enc_xdoc(d: XmlFuncDocumentationView) -> Seq<u8> {
    enc_str(d.name) + (enc_str(d.description) + (enc_opt_str(d.fn_type) + (enc_pair_list(d.args)
        + enc_opt_str(d.example))))
}

/// One indexed manual entry as bytes: its key, then its record.
pub open spec fn enc_xentry(e: (Seq<char>, XmlFuncDocumentationView)) -> Seq<u8> {
    enc_str(e.0) + enc_xdoc(e.1)
}

/// Indexed manual entries, back to back.
pub open spec fn enc_xentries(l: Seq<(Seq<char>, XmlFuncDocumentationView)>) -> Seq<u8>
    decreases l.len(),
{
    if l.len() == 0 {
        Seq::empty()
    } else {
        enc_xentry(l.first()) + enc_xentries(l.drop_first())
    }
}

/// The entry's strings are short enough for their length prefixes.
pub open spec fn xdoc_bounded(d: XmlFuncDocumentationView) -> bool {
    str_bounded(d.name) && str_bounded(d.description) && opt_str_bounded(d.fn_type)
        && pairs_bounded(d.args) && opt_str_bounded(d.example)
}

/// Every indexed manual entry is bounded, and so is their number.
pub open spec fn xentries_bounded(l: Seq<(Seq<char>, XmlFuncDocumentationView)>) -> bool {
    l.len() <= u64::MAX && forall|i: int|
        0 <= i < l.len() ==> str_bounded((#[trigger] l[i]).0) && xdoc_bounded(l[i].1)
}

/// Reads one manual entry record.
pub open spec fn dec_xdoc(b: Seq<u8>, pos: int) -> Option<(XmlFuncDocumentationView, int)> {
    match dec_str(b, pos) {
        Some((name, p1)) => match dec_str(b, p1) {
            Some((description, p2)) => match dec_opt_str(b, p2) {
                Some((fn_type, p3)) => match dec_pair_list(b, p3) {
                    Some((args, p4)) => match dec_opt_str(b, p4) {
                        Some((example, p5)) => Some(
                            (
                                XmlFuncDocumentationView {
                                    name,
                                    description,
                                    fn_type,
                                    args,
                                    example,
                                },
                                p5,
                            ),
                        ),
                        None => None,
                    },
                    None => None,
                },
                None => None,
            },
            None => None,
        },
        None => None,
    }
}

/// Reads one indexed manual entry.
pub open spec fn dec_xentry(b: Seq<u8>, pos: int) -> Option<
    ((Seq<char>, XmlFuncDocumentationView), int),
> {
    match dec_str(b, pos) {
        Some((key, p1)) => match dec_xdoc(b, p1) {
            Some((d, p2)) => Some(((key, d), p2)),
            None => None,
        },
        None => None,
    }
}

/// Reads `count` indexed manual entries, back to back.
pub open spec fn dec_xentries(b: Seq<u8>, pos: int, count: int) -> Option<
    (Seq<(Seq<char>, XmlFuncDocumentationView)>, int),
>
    decreases count,
    when count >= 0
{
    if count == 0 {
        Some((Seq::empty(), pos))
    } else {
        match dec_xentry(b, pos) {
            Some((e, p)) => match dec_xentries(b, p, count - 1) {
                Some((rest, p2)) => Some((seq![e] + rest, p2)),
                None => None,
            },
            None => None,
        }
    }
}

/// An encoded manual entry record reads back as itself.
pub proof fn lemma_dec_xdoc_at(b: Seq<u8>, pos: int, d: XmlFuncDocumentationView)
    requires
        0 <= pos,
        pos + enc_xdoc(d).len() <= b.len(),
        b.subrange(pos, pos + enc_xdoc(d).len()) == enc_xdoc(d),
        xdoc_bounded(d),
    ensures
        dec_xdoc(b, pos) == Some((d, pos + enc_xdoc(d).len())),
{
    let x1 = enc_str(d.name);
    let x2 = enc_str(d.description);
    let x3 = enc_opt_str(d.fn_type);
    let x4 = enc_pair_list(d.args);
    let x5 = enc_opt_str(d.example);
    lemma_split_concat_at(b, pos, x1, x2 + (x3 + (x4 + x5)));
    lemma_dec_str_at(b, pos, d.name);
    let p1 = pos + x1.len();
    lemma_split_concat_at(b, p1, x2, x3 + (x4 + x5));
    lemma_dec_str_at(b, p1, d.description);
    let p2 = p1 + x2.len();
    lemma_split_concat_at(b, p2, x3, x4 + x5);
    lemma_dec_opt_str_at(b, p2, d.fn_type);
    let p3 = p2 + x3.len();
    lemma_split_concat_at(b, p3, x4, x5);
    lemma_dec_pair_list_at(b, p3, d.args);
    let p4 = p3 + x4.len();
    lemma_dec_opt_str_at(b, p4, d.example);
    assert((XmlFuncDocumentationView {
        name: d.name,
        description: d.description,
        fn_type: d.fn_type,
        args: d.args,
        example: d.example,
    }) =~= d);
}

/// An encoded indexed manual entry reads back as itself.
pub proof fn lemma_dec_xentry_at(b: Seq<u8>, pos: int, e: (Seq<char>, XmlFuncDocumentationView))
    requires
        0 <= pos,
        pos + enc_xentry(e).len() <= b.len(),
        b.subrange(pos, pos + enc_xentry(e).len()) == enc_xentry(e),
        str_bounded(e.0),
        xdoc_bounded(e.1),
    ensures
        dec_xentry(b, pos) == Some((e, pos + enc_xentry(e).len())),
{
    lemma_split_concat_at(b, pos, enc_str(e.0), enc_xdoc(e.1));
    lemma_dec_str_at(b, pos, e.0);
    lemma_dec_xdoc_at(b, pos + enc_str(e.0).len(), e.1);
    assert((e.0, e.1) == e);
}

/// Encoded indexed manual entries read back as themselves, in order.
#[verifier::rlimit(100)]
pub proof fn lemma_dec_xentries_at(
    b: Seq<u8>,
    pos: int,
    l: Seq<(Seq<char>, XmlFuncDocumentationView)>,
)
    requires
        0 <= pos,
        pos + enc_xentries(l).len() <= b.len(),
        b.subrange(pos, pos + enc_xentries(l).len()) == enc_xentries(l),
        forall|i: int|
            0 <= i < l.len() ==> str_bounded((#[trigger] l[i]).0) && xdoc_bounded(l[i].1),
    ensures
        dec_xentries(b, pos, l.len() as int) == Some((l, pos + enc_xentries(l).len())),
    decreases l.len(),
{
    if l.len() == 0 {
        assert(l =~= Seq::<(Seq<char>, XmlFuncDocumentationView)>::empty());
    } else {
        let e = l.first();
        let rest = l.drop_first();
        assert(l[0] == e);
        lemma_split_concat_at(b, pos, enc_xentry(e), enc_xentries(rest));
        lemma_dec_xentry_at(b, pos, e);
        assert(forall|i: int| 0 <= i < rest.len() ==> rest[i] == l[i + 1]);
        lemma_dec_xentries_at(b, pos + enc_xentry(e).len(), rest);
        assert(seq![e] + rest =~= l);
    }
}

/// Appending one indexed manual entry extends the encoding at the end.
pub proof fn lemma_enc_xentries_snoc(
    l: Seq<(Seq<char>, XmlFuncDocumentationView)>,
    x: (Seq<char>, XmlFuncDocumentationView),
)
    ensures
        enc_xentries(l.push(x)) == enc_xentries(l) + enc_xentry(x),
    decreases l.len(),
{
    if l.len() == 0 {
        assert(l.push(x).first() == x);
        assert(l.push(x).drop_first() =~= Seq::<(Seq<char>, XmlFuncDocumentationView)>::empty());
        assert(enc_xentries(l.push(x)) == enc_xentry(x) + enc_xentries((l.push(x)).drop_first()));
        assert(enc_xentries((l.push(x)).drop_first()) == Seq::<u8>::empty());
        assert(enc_xentries(l) == Seq::<u8>::empty());
        assert(enc_xentry(x) + Seq::<u8>::empty() =~= Seq::<u8>::empty() + enc_xentry(x));
    } else {
        let f = enc_xentry(l.first());
        assert((l.push(x)).first() == l.first());
        assert((l.push(x)).drop_first() =~= l.drop_first().push(x));
        lemma_enc_xentries_snoc(l.drop_first(), x);
        assert(enc_xentries(l.push(x)) == f + enc_xentries((l.push(x)).drop_first()));
        assert(enc_xentries(l) == f + enc_xentries(l.drop_first()));
        assert(f + (enc_xentries(l.drop_first()) + enc_xentry(x)) =~= (f + enc_xentries(
            l.drop_first(),
        )) + enc_xentry(x));
    }
}

/// Appends one manual entry record to a cache blob.
fn write_xdoc(out: &mut Vec<u8>, d: &XmlFuncDocumentation)
    ensures
        final(out)@ == old(out)@ + enc_xdoc(d@),
{
    write_str(out, d.name.as_str());
    write_str(out, d.description.as_str());
    write_opt_str(out, &d.fn_type);
    write_pair_list(out, &d.args);
    write_opt_str(out, &d.example);
    assert(out@ =~= old(out)@ + enc_xdoc(d@));
}

/// Reads one manual entry record from a cache blob.
fn read_xdoc(b: &[u8], pos: usize) -> (r: Option<(XmlFuncDocumentation, usize)>)
    ensures
        match r {
            Some((d, p)) => dec_xdoc(b@, pos as int) == Some((d@, p as int)),
            None => dec_xdoc(b@, pos as int) is None,
        },
{
    let (name, p1) = match read_str(b, pos) {
        Some(x) => x,
        None => { return None; },
    };
    let (description, p2) = match read_str(b, p1) {
        Some(x) => x,
        None => { return None; },
    };
    let (fn_type, p3) = match read_opt_str(b, p2) {
        Some(x) => x,
        None => { return None; },
    };
    let (args, p4) = match read_pair_list(b, p3) {
        Some(x) => x,
        None => { return None; },
    };
    let (example, p5) = match read_opt_str(b, p4) {
        Some(x) => x,
        None => { return None; },
    };
    let ghost nv = name@;
    let ghost dv = description@;
    let ghost tv = fn_type.deep_view();
    let ghost av = pairs_view(args@);
    let ghost ev = example.deep_view();
    let d = XmlFuncDocumentation { name, description, fn_type, args, example };
    proof {
        assert(d@ =~= (XmlFuncDocumentationView {
            name: nv,
            description: dv,
            fn_type: tv,
            args: av,
            example: ev,
        }));
        assert(dec_xdoc(b@, pos as int) == Some((d@, p5 as int)));
    }
    Some((d, p5))
}

impl Cache for XmlFuncDocDatabase {
    open spec fn cache_wf(&self) -> bool {
        true
    }

    open spec fn cache_bytes(&self) -> Seq<u8> {
        enc_u64(self@.len() as u64) + enc_xentries(self@)
    }

    open spec fn decode_spec(bytes: Seq<u8>) -> Option<Seq<(Seq<char>, XmlFuncDocumentationView)>> {
        match dec_u64(bytes, 0) {
            Some((n, p0)) => match dec_xentries(bytes, p0, n as int) {
                Some((v, p)) => if p == bytes.len() {
                    Some(v)
                } else {
                    None
                },
                None => None,
            },
            None => None,
        }
    }

    fn to_bytes(&self) -> (r: Vec<u8>)
        ensures
            r@ == self.cache_bytes(),
    {
        let mut out: Vec<u8> = Vec::new();
        write_u64(&mut out, self.functions.len() as u64);
        let ghost mid = out@;
        let ghost ev = self@;
        let mut i: usize = 0;
        proof {
            assert(ev.take(0) =~= Seq::<(Seq<char>, XmlFuncDocumentationView)>::empty());
            assert(mid + enc_xentries(ev.take(0)) =~= mid);
        }
        while i < self.functions.len()
            invariant
                ev == self@,
                ev.len() == self.functions@.len(),
                i <= ev.len(),
                out@ == mid + enc_xentries(ev.take(i as int)),
            decreases ev.len() - i,
        {
            write_str(&mut out, self.functions[i].0.as_str());
            write_xdoc(&mut out, &self.functions[i].1);
            proof {
                assert(ev.take(i + 1) =~= ev.take(i as int).push(ev[i as int]));
                lemma_enc_xentries_snoc(ev.take(i as int), ev[i as int]);
                assert(ev[i as int] == (self.functions@[i as int].0@, self.functions@[
                    i as int].1@));
                assert(out@ =~= mid + enc_xentries(ev.take(i + 1)));
            }
            i += 1;
        }
        proof {
            assert(ev.take(ev.len() as int) =~= ev);
            assert(out@ =~= self.cache_bytes());
        }
        out
    }

    fn load(content: &[u8]) -> (r: Result<Self, Errors>)
        ensures
            match Self::decode_spec(content@) {
                Some(v) => r matches Ok(db) && db@ == v && db.cache_wf(),
                None => r is Err,
            },
    {
        let (n, p0) = match read_u64(content, 0) {
            Some(x) => x,
            None => {
                return Err(
                    Errors::Deserialize {
                        message: String::from_str("the manual cache is malformed"),
                    },
                );
            },
        };
        let mut functions: Vec<(String, XmlFuncDocumentation)> = Vec::new();
        let mut p = p0;
        let mut k: u64 = 0;
        proof {
            assert(keyed_views(functions@) =~= Seq::<
                (Seq<char>, XmlFuncDocumentationView),
            >::empty());
        }
        while k < n
            invariant
                k <= n,
                dec_u64(content@, 0) == Some((n, p0 as int)),
                keyed_views(functions@).len() == functions@.len(),
                match dec_xentries(content@, p as int, (n - k) as int) {
                    Some((rest, pend)) => dec_xentries(content@, p0 as int, n as int) == Some(
                        (keyed_views(functions@) + rest, pend),
                    ),
                    None => dec_xentries(content@, p0 as int, n as int) is None,
                },
            decreases n - k,
        {
            let (key, p1) = match read_str(content, p) {
                Some(x) => x,
                None => {
                    proof {
                        assert(dec_xentry(content@, p as int) is None);
                        assert(dec_xentries(content@, p as int, (n - k) as int) is None);
                    }
                    return Err(
                        Errors::Deserialize {
                            message: String::from_str("the manual cache is malformed"),
                        },
                    );
                },
            };
            let (d, p2) = match read_xdoc(content, p1) {
                Some(x) => x,
                None => {
                    proof {
                        assert(dec_xentry(content@, p as int) is None);
                        assert(dec_xentries(content@, p as int, (n - k) as int) is None);
                    }
                    return Err(
                        Errors::Deserialize {
                            message: String::from_str("the manual cache is malformed"),
                        },
                    );
                },
            };
            proof {
                assert(dec_xentry(content@, p as int) == Some(((key@, d@), p2 as int)));
                lemma_dec_xentries_step(content@, p as int, (n - k) as int, (key@, d@), p2 as int);
            }
            let ghost pre = keyed_views(functions@);
            let ghost pv = (key@, d@);
            functions.push((key, d));
            proof {
                assert(keyed_views(functions@) =~= pre.push(pv));
                match dec_xentries(content@, p2 as int, (n - k - 1) as int) {
                    Some((rest, pend)) => {
                        assert(pre.push(pv) + rest =~= pre + (seq![pv] + rest));
                    },
                    None => {},
                }
            }
            p = p2;
            k += 1;
        }
        proof {
            assert(dec_xentries(content@, p as int, 0) == Some(
                (Seq::<(Seq<char>, XmlFuncDocumentationView)>::empty(), p as int),
            ));
            assert(keyed_views(functions@) + Seq::<(Seq<char>, XmlFuncDocumentationView)>::empty()
                =~= keyed_views(functions@));
        }
        if p != content.len() {
            return Err(
                Errors::Deserialize {
                    message: String::from_str("the manual cache has bytes left over"),
                },
            );
        }
        Ok(XmlFuncDocDatabase { functions })
    }
}

/// One decoded indexed manual entry extends the sequence read so far.
proof fn lemma_dec_xentries_step(
    b: Seq<u8>,
    pos: int,
    count: int,
    e: (Seq<char>, XmlFuncDocumentationView),
    p2: int,
)
    requires
        count > 0,
        dec_xentry(b, pos) == Some((e, p2)),
    ensures
        match dec_xentries(b, p2, count - 1) {
            Some((rest, pend)) => dec_xentries(b, pos, count) == Some((seq![e] + rest, pend)),
            None => dec_xentries(b, pos, count) is None,
        },
{
}

/// Serializing the manual index and reading the blob back reproduces exactly
/// the entries it held.
pub proof fn lemma_xml_cache_round_trip(db: &XmlFuncDocDatabase)
    requires
        xentries_bounded(db@),
    ensures
        XmlFuncDocDatabase::decode_spec(db.cache_bytes()) == Some(db@),
{
    let v = db@;
    let b = db.cache_bytes();
    assert(b.subrange(0, b.len() as int) =~= b);
    lemma_split_concat_at(b, 0, enc_u64(v.len() as u64), enc_xentries(v));
    lemma_dec_u64_at(b, 0, v.len() as u64);
    lemma_dec_xentries_at(b, 8, v);
}

} // verus!

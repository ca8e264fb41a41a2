//! The outline of a class: its package, imports, declaration and members,
//! read off the syntax tree of its source.

use vstd::prelude::*;
use vstd::utf8::encode_utf8;
use crate::paths::same_str;
use crate::syntax::{
    child_at, child_count, java_tree, new_parser, node_kind, node_shape, node_text, parse_source,
    root_node, set_java, Syntax,
};
use crate::text::{
    append_range, chars_of, is_space, is_space_char, string_of, to_string, trim, trim_range,
};

verus! {

/// What a class declares, without the bodies of its methods.
#[derive(Debug, Clone)]
pub struct ClassStructure {
    pub package: String,
    pub imports: Vec<String>,
    pub class_declaration: String,
    pub fields: Vec<String>,
    pub methods: Vec<String>,
}

/// The outline of a class as plain text.
pub ghost struct Outline {
    pub package: Seq<char>,
    pub imports: Seq<Seq<char>>,
    pub class_declaration: Seq<char>,
    pub fields: Seq<Seq<char>>,
    pub methods: Seq<Seq<char>>,
}

impl ClassStructure {
    /// This structure holds the outline `o`.
    pub open spec fn holds(self, o: Outline) -> bool {
        &&& self.package@ == o.package
        &&& self.imports.deep_view() == o.imports
        &&& self.class_declaration@ == o.class_declaration
        &&& self.fields.deep_view() == o.fields
        &&& self.methods.deep_view() == o.methods
    }
}

// ---------------------------------------------------------------------------
// Kinds of nodes
// ---------------------------------------------------------------------------

/// Kinds that are written without a space before them.
pub open spec fn is_tight(kind: Seq<char>) -> bool {
    kind == "type_parameters"@ || kind == "formal_parameters"@ || kind == "type_arguments"@
}

/// Kinds at which the head of a type declaration ends.
pub open spec fn ends_declaration(kind: Seq<char>) -> bool {
    kind == "class_body"@ || kind == "interface_body"@ || kind == "enum_body"@ || kind
        == "annotation_type_body"@ || kind == "record_declaration_body"@
}

/// Kinds at which the signature of a method ends.
pub open spec fn ends_signature(kind: Seq<char>) -> bool {
    kind == "block"@ || kind == "constructor_body"@
}

/// Kinds of the bodies whose members are listed.
pub open spec fn is_member_body(kind: Seq<char>) -> bool {
    kind == "class_body"@ || kind == "interface_body"@ || kind == "enum_body"@ || kind
        == "annotation_type_body"@
}

/// Kinds that name a package.
pub open spec fn is_name(kind: Seq<char>) -> bool {
    kind == "scoped_identifier"@ || kind == "identifier"@
}

/// Kinds that name what an import brings in.
pub open spec fn is_import_name(kind: Seq<char>) -> bool {
    is_name(kind) || kind == "asterisk"@
}

/// Kinds that declare a type.
pub open spec fn is_type_declaration(kind: Seq<char>) -> bool {
    kind == "class_declaration"@ || kind == "interface_declaration"@ || kind
        == "enum_declaration"@ || kind == "record_declaration"@ || kind
        == "annotation_type_declaration"@
}

/// Kinds that declare a method.
pub open spec fn is_method(kind: Seq<char>) -> bool {
    kind == "method_declaration"@ || kind == "constructor_declaration"@
}

/// Kinds that are listed among the fields with their whole text.
pub open spec fn is_plain_field(kind: Seq<char>) -> bool {
    kind == "constant_declaration"@ || kind == "enum_constant"@
}

// ---------------------------------------------------------------------------
// Model
// ---------------------------------------------------------------------------

/// `s` with each run of whitespace turned into one space, and none at its
/// ends.
pub open spec fn squeezed(s: Seq<char>) -> Seq<char>
    decreases s.len(),
{
    if s.len() == 0 {
        s
    } else {
        let p = squeezed(s.drop_last());
        if is_space(s.last()) {
            p
        } else if p.len() > 0 && s.len() >= 2 && is_space(s[s.len() - 2]) {
            p.push(' ').push(s.last())
        } else {
            p.push(s.last())
        }
    }
}

/// The texts of the first `k` children of `n` up to the one that ends the
/// head, joined by a space except before tight kinds; and whether the end
/// was met. For a signature, `;` is left out.
pub open spec fn pieces(n: Syntax, src: Seq<u8>, k: int, sig: bool) -> (Seq<char>, bool)
    decreases k,
{
    if k <= 0 {
        (Seq::empty(), false)
    } else {
        let (acc, stopped) = pieces(n, src, k - 1, sig);
        let c = n.children[k - 1];
        if stopped {
            (acc, true)
        } else if (sig && ends_signature(c.kind)) || (!sig && ends_declaration(c.kind)) {
            (acc, true)
        } else if sig && c.kind == ";"@ {
            (acc, false)
        } else if acc.len() > 0 && !is_tight(c.kind) {
            (acc.push(' ') + c.text(src), false)
        } else {
            (acc + c.text(src), false)
        }
    }
}

/// The head of a type declaration.
pub open spec fn declaration_of(n: Syntax, src: Seq<u8>) -> Seq<char> {
    trim(pieces(n, src, n.children.len() as int, false).0)
}

/// The signature of a method, when it is not empty.
pub open spec fn signature_of(n: Syntax, src: Seq<u8>) -> Option<Seq<char>> {
    let s = trim(pieces(n, src, n.children.len() as int, true).0);
    if s.len() == 0 {
        None
    } else {
        Some(s)
    }
}

/// The text of the first among the first `k` children that names a
/// package.
pub open spec fn package_upto(n: Syntax, src: Seq<u8>, k: int) -> Option<Seq<char>>
    decreases k,
{
    if k <= 0 {
        None
    } else {
        match package_upto(n, src, k - 1) {
            Some(p) => Some(p),
            None => if is_name(n.children[k - 1].kind) {
                Some(n.children[k - 1].text(src))
            } else {
                None
            },
        }
    }
}

/// The package that a package declaration names; empty when it names none.
pub open spec fn package_of(n: Syntax, src: Seq<u8>) -> Seq<char> {
    match package_upto(n, src, n.children.len() as int) {
        Some(p) => p,
        None => Seq::empty(),
    }
}

/// The text of the last among the first `k` children that names what is
/// imported.
pub open spec fn import_upto(n: Syntax, src: Seq<u8>, k: int) -> Seq<char>
    decreases k,
{
    if k <= 0 {
        Seq::empty()
    } else if is_import_name(n.children[k - 1].kind) {
        n.children[k - 1].text(src)
    } else {
        import_upto(n, src, k - 1)
    }
}

/// What an import declaration brings in, when it names anything.
pub open spec fn import_of(n: Syntax, src: Seq<u8>) -> Option<Seq<char>> {
    let path = import_upto(n, src, n.children.len() as int);
    if path.len() == 0 {
        None
    } else {
        Some(path)
    }
}

/// Index of the first among the first `k` children that is a body with
/// members.
pub open spec fn body_upto(n: Syntax, k: int) -> Option<int>
    decreases k,
{
    if k <= 0 {
        None
    } else {
        match body_upto(n, k - 1) {
            Some(i) => Some(i),
            None => if is_member_body(n.children[k - 1].kind) {
                Some(k - 1)
            } else {
                None
            },
        }
    }
}

/// The fields and methods that the first `k` children of a body declare.
/// Inside the declarations that follow the constants of an enum (`nested`),
/// only fields and methods are looked at.
pub open spec fn members_upto(body: Syntax, src: Seq<u8>, k: int, nested: bool) -> (
    Seq<Seq<char>>,
    Seq<Seq<char>>,
)
    decreases (if nested { 0nat } else { 1nat }), k,
{
    if k <= 0 {
        (Seq::empty(), Seq::empty())
    } else {
        let (fields, methods) = members_upto(body, src, k - 1, nested);
        let c = body.children[k - 1];
        if c.kind == "field_declaration"@ {
            (fields.push(squeezed(c.text(src))), methods)
        } else if is_method(c.kind) {
            match signature_of(c, src) {
                Some(sig) => (fields, methods.push(sig)),
                None => (fields, methods),
            }
        } else if !nested && c.kind == "annotation_type_element_declaration"@ {
            (fields, methods.push(squeezed(c.text(src))))
        } else if !nested && is_plain_field(c.kind) {
            (fields.push(squeezed(c.text(src))), methods)
        } else if !nested && c.kind == "enum_body_declarations"@ {
            let inner = members_upto(c, src, c.children.len() as int, true);
            (fields + inner.0, methods + inner.1)
        } else {
            (fields, methods)
        }
    }
}

/// The fields and methods of a type declaration.
pub open spec fn members_of(n: Syntax, src: Seq<u8>) -> (Seq<Seq<char>>, Seq<Seq<char>>) {
    match body_upto(n, n.children.len() as int) {
        Some(i) => members_upto(n.children[i], src, n.children[i].children.len() as int, false),
        None => (Seq::empty(), Seq::empty()),
    }
}

/// The outline that the first `k` children of the root give.
pub open spec fn outline_upto(root: Syntax, src: Seq<u8>, k: int) -> Outline
    decreases k,
{
    if k <= 0 {
        Outline {
            package: Seq::empty(),
            imports: Seq::empty(),
            class_declaration: Seq::empty(),
            fields: Seq::empty(),
            methods: Seq::empty(),
        }
    } else {
        let o = outline_upto(root, src, k - 1);
        let c = root.children[k - 1];
        if c.kind == "package_declaration"@ {
            Outline { package: package_of(c, src), ..o }
        } else if c.kind == "import_declaration"@ {
            match import_of(c, src) {
                Some(path) => Outline { imports: o.imports.push(path), ..o },
                None => o,
            }
        } else if is_type_declaration(c.kind) {
            Outline {
                class_declaration: declaration_of(c, src),
                fields: o.fields + members_of(c, src).0,
                methods: o.methods + members_of(c, src).1,
                ..o
            }
        } else {
            o
        }
    }
}

/// The outline of the class in `source`; none for a source of whitespace
/// alone, or one that the parser gives no tree for.
pub open spec fn outline_of(source: Seq<char>) -> Option<Outline> {
    if trim(source).len() == 0 {
        None
    } else {
        match java_tree(source) {
            Some(root) => Some(outline_upto(root, encode_utf8(source), root.children.len() as int)),
            None => None,
        }
    }
}

/// Once the end of a head is met, later children add nothing.
pub proof fn lemma_pieces_stopped(n: Syntax, src: Seq<u8>, k: int, m: int, sig: bool)
    requires
        0 <= k <= m,
        pieces(n, src, k, sig).1,
    ensures
        pieces(n, src, m, sig) == pieces(n, src, k, sig),
    decreases m - k,
{
    if k < m {
        lemma_pieces_stopped(n, src, k, m - 1, sig);
    }
}

/// Once a package name is found, later children change nothing.
pub proof fn lemma_package_found(n: Syntax, src: Seq<u8>, k: int, m: int)
    requires
        0 <= k <= m,
        package_upto(n, src, k) is Some,
    ensures
        package_upto(n, src, m) == package_upto(n, src, k),
    decreases m - k,
{
    if k < m {
        lemma_package_found(n, src, k, m - 1);
    }
}

/// Once a body is found, later children change nothing.
pub proof fn lemma_body_found(n: Syntax, k: int, m: int)
    requires
        0 <= k <= m,
        body_upto(n, k) is Some,
    ensures
        body_upto(n, m) == body_upto(n, k),
    decreases m - k,
{
    if k < m {
        lemma_body_found(n, k, m - 1);
    }
}

// ---------------------------------------------------------------------------
// Extraction
// ---------------------------------------------------------------------------

/// Whether a node of this kind is written without a space before it.
pub fn needs_no_leading_space(kind: &str) -> (r: bool)
    ensures
        r == is_tight(kind@),
{
    same_str(kind, "type_parameters") || same_str(kind, "formal_parameters") || same_str(
        kind,
        "type_arguments",
    )
}

/// `s` with each run of whitespace turned into one space, and none at its
/// ends.
pub fn normalize_whitespace(s: &str) -> (r: String)
    ensures
        r@ == squeezed(s@),
{
    let v = chars_of(s);
    let mut out: Vec<char> = Vec::new();
    let mut i: usize = 0;
    assert(v@.take(0) =~= Seq::<char>::empty());
    while i < v.len()
        invariant
            i <= v.len(),
            out@ == squeezed(v@.take(i as int)),
        decreases v.len() - i,
    {
        let ghost cur = v@.take(i + 1);
        proof {
            assert(cur.drop_last() =~= v@.take(i as int));
            assert(cur.last() == v@[i as int]);
            if i > 0 {
                assert(cur[cur.len() - 2] == v@[i - 1]);
            }
        }
        if !is_space_char(v[i]) {
            if out.len() > 0 && i > 0 && is_space_char(v[i - 1]) {
                out.push(' ');
            }
            out.push(v[i]);
        }
        i = i + 1;
    }
    assert(v@.take(v.len() as int) =~= v@);
    to_string(&out)
}

fn ends_head(kind: &str, sig: bool) -> (r: bool)
    ensures
        r == ((sig && ends_signature(kind@)) || (!sig && ends_declaration(kind@))),
{
    if sig {
        same_str(kind, "block") || same_str(kind, "constructor_body")
    } else {
        same_str(kind, "class_body") || same_str(kind, "interface_body") || same_str(
            kind,
            "enum_body",
        ) || same_str(kind, "annotation_type_body") || same_str(kind, "record_declaration_body")
    }
}

/// The head of `node`: of a type declaration, or of a method when `sig` is
/// set.
fn head_of(node: &tree_sitter::Node, source: &[u8], sig: bool) -> (r: String)
    ensures
        r@ == trim(
            pieces(node_shape(*node), source@, node_shape(*node).children.len() as int, sig).0,
        ),
{
    let ghost n = node_shape(*node);
    let count = child_count(node);
    let mut acc: Vec<char> = Vec::new();
    let mut stopped = false;
    let mut i: u32 = 0;
    while i < count && !stopped
        invariant
            i <= count,
            count == n.children.len(),
            n == node_shape(*node),
            (acc@, stopped) == pieces(n, source@, i as int, sig),
        decreases (count - i) + (if stopped { 0int } else { 1int }),
    {
        match child_at(node, i) {
            Some(child) => {
                let kind = node_kind(&child);
                if ends_head(kind.as_str(), sig) {
                    stopped = true;
                } else if sig && same_str(kind.as_str(), ";") {
                } else {
                    let text = chars_of(node_text(&child, source).as_str());
                    if acc.len() > 0 && !needs_no_leading_space(kind.as_str()) {
                        acc.push(' ');
                    }
                    append_range(&mut acc, &text, 0, text.len());
                    assert(text@.subrange(0, text.len() as int) =~= text@);
                }
            },
            None => {},
        }
        i = i + 1;
    }
    proof {
        if stopped {
            lemma_pieces_stopped(n, source@, i as int, count as int, sig);
        }
        assert(acc@.subrange(0, acc.len() as int) =~= acc@);
    }
    let (a, b) = trim_range(&acc, 0, acc.len());
    string_of(&acc, a, b)
}

/// The head of a type declaration: everything before its body.
pub(crate) fn extract_class_declaration(node: &tree_sitter::Node, source: &[u8]) -> (r: String)
    ensures
        r@ == declaration_of(node_shape(*node), source@),
{
    head_of(node, source, false)
}

/// The signature of a method: everything before its body.
pub(crate) fn extract_method_signature(node: &tree_sitter::Node, source: &[u8]) -> (r: Option<String>)
    ensures
        match r {
            Some(s) => signature_of(node_shape(*node), source@) == Some(s@),
            None => signature_of(node_shape(*node), source@) is None,
        },
{
    let sig = head_of(node, source, true);
    if sig.as_str().unicode_len() == 0 {
        None
    } else {
        Some(sig)
    }
}

/// The package that a package declaration names.
pub(crate) fn extract_package(node: &tree_sitter::Node, source: &[u8]) -> (r: String)
    ensures
        r@ == package_of(node_shape(*node), source@),
{
    let ghost n = node_shape(*node);
    let count = child_count(node);
    let mut i: u32 = 0;
    while i < count
        invariant
            i <= count,
            count == n.children.len(),
            n == node_shape(*node),
            package_upto(n, source@, i as int) is None,
        decreases count - i,
    {
        match child_at(node, i) {
            Some(child) => {
                let kind = node_kind(&child);
                if same_str(kind.as_str(), "scoped_identifier") || same_str(
                    kind.as_str(),
                    "identifier",
                ) {
                    proof {
                        assert(package_upto(n, source@, i + 1) == Some(
                            n.children[i as int].text(source@),
                        ));
                        lemma_package_found(n, source@, i + 1, count as int);
                    }
                    return node_text(&child, source);
                }
            },
            None => {},
        }
        i = i + 1;
    }
    String::new()
}

/// What an import declaration brings in.
pub(crate) fn extract_import(node: &tree_sitter::Node, source: &[u8]) -> (r: Option<String>)
    ensures
        match r {
            Some(p) => import_of(node_shape(*node), source@) == Some(p@),
            None => import_of(node_shape(*node), source@) is None,
        },
{
    let ghost n = node_shape(*node);
    let count = child_count(node);
    let mut path = String::new();
    let mut i: u32 = 0;
    while i < count
        invariant
            i <= count,
            count == n.children.len(),
            n == node_shape(*node),
            path@ == import_upto(n, source@, i as int),
        decreases count - i,
    {
        match child_at(node, i) {
            Some(child) => {
                let kind = node_kind(&child);
                if same_str(kind.as_str(), "scoped_identifier") || same_str(
                    kind.as_str(),
                    "identifier",
                ) || same_str(kind.as_str(), "asterisk") {
                    path = node_text(&child, source);
                }
            },
            None => {},
        }
        i = i + 1;
    }
    if path.as_str().unicode_len() == 0 {
        None
    } else {
        Some(path)
    }
}

/// The body of a type declaration whose members are listed.
pub(crate) fn find_body<'a>(node: &tree_sitter::Node<'a>) -> (r: Option<tree_sitter::Node<'a>>)
    ensures
        match r {
            Some(b) => {
                let i = body_upto(node_shape(*node), node_shape(*node).children.len() as int);
                i is Some && 0 <= i->0 < node_shape(*node).children.len() && node_shape(b)
                    == node_shape(*node).children[i->0]
            },
            None => body_upto(node_shape(*node), node_shape(*node).children.len() as int) is None,
        },
{
    let ghost n = node_shape(*node);
    let count = child_count(node);
    let mut i: u32 = 0;
    while i < count
        invariant
            i <= count,
            count == n.children.len(),
            n == node_shape(*node),
            body_upto(n, i as int) is None,
        decreases count - i,
    {
        match child_at(node, i) {
            Some(child) => {
                let kind = node_kind(&child);
                if same_str(kind.as_str(), "class_body") || same_str(kind.as_str(), "interface_body")
                    || same_str(kind.as_str(), "enum_body") || same_str(
                    kind.as_str(),
                    "annotation_type_body",
                ) {
                    proof {
                        assert(body_upto(n, i + 1) == Some(i as int));
                        lemma_body_found(n, i + 1, count as int);
                    }
                    return Some(child);
                }
            },
            None => {},
        }
        i = i + 1;
    }
    None
}

/// Appends the fields and methods that the children of `body` declare.
fn collect_members(
    body: &tree_sitter::Node,
    source: &[u8],
    fields: &mut Vec<String>,
    methods: &mut Vec<String>,
    nested: bool,
)
    ensures
        final(fields).deep_view() == old(fields).deep_view() + members_upto(
            node_shape(*body),
            source@,
            node_shape(*body).children.len() as int,
            nested,
        ).0,
        final(methods).deep_view() == old(methods).deep_view() + members_upto(
            node_shape(*body),
            source@,
            node_shape(*body).children.len() as int,
            nested,
        ).1,
    decreases (if nested { 0nat } else { 1nat }),
{
    let ghost n = node_shape(*body);
    let ghost f0 = fields.deep_view();
    let ghost m0 = methods.deep_view();
    let count = child_count(body);
    let mut i: u32 = 0;
    proof {
        assert(f0 + Seq::<Seq<char>>::empty() =~= f0);
        assert(m0 + Seq::<Seq<char>>::empty() =~= m0);
    }
    while i < count
        invariant
            i <= count,
            count == n.children.len(),
            n == node_shape(*body),
            fields.deep_view() == f0 + members_upto(n, source@, i as int, nested).0,
            methods.deep_view() == m0 + members_upto(n, source@, i as int, nested).1,
        decreases count - i,
    {
        let ghost before = members_upto(n, source@, i as int, nested);
        let ghost fb = fields.deep_view();
        let ghost mb = methods.deep_view();
        match child_at(body, i) {
            Some(child) => {
                let kind = node_kind(&child);
                let ghost c = n.children[i as int];
                if same_str(kind.as_str(), "field_declaration") {
                    let text = node_text(&child, source);
                    fields.push(normalize_whitespace(text.as_str()));
                    assert(fields.deep_view() =~= fb.push(squeezed(c.text(source@))));
                    assert(fields.deep_view() =~= f0 + before.0.push(squeezed(c.text(source@))));
                } else if same_str(kind.as_str(), "method_declaration") || same_str(
                    kind.as_str(),
                    "constructor_declaration",
                ) {
                    match extract_method_signature(&child, source) {
                        Some(sig) => {
                            methods.push(sig);
                            assert(methods.deep_view() =~= mb.push(sig@));
                            assert(methods.deep_view() =~= m0 + before.1.push(sig@));
                        },
                        None => {},
                    }
                } else if !nested && same_str(kind.as_str(), "annotation_type_element_declaration") {
                    let text = node_text(&child, source);
                    methods.push(normalize_whitespace(text.as_str()));
                    assert(methods.deep_view() =~= mb.push(squeezed(c.text(source@))));
                    assert(methods.deep_view() =~= m0 + before.1.push(squeezed(c.text(source@))));
                } else if !nested && (same_str(kind.as_str(), "constant_declaration") || same_str(
                    kind.as_str(),
                    "enum_constant",
                )) {
                    let text = node_text(&child, source);
                    fields.push(normalize_whitespace(text.as_str()));
                    assert(fields.deep_view() =~= fb.push(squeezed(c.text(source@))));
                    assert(fields.deep_view() =~= f0 + before.0.push(squeezed(c.text(source@))));
                } else if !nested && same_str(kind.as_str(), "enum_body_declarations") {
                    collect_members(&child, source, fields, methods, true);
                    proof {
                        let inner = members_upto(c, source@, c.children.len() as int, true);
                        assert(fields.deep_view() =~= f0 + (before.0 + inner.0));
                        assert(methods.deep_view() =~= m0 + (before.1 + inner.1));
                    }
                }
            },
            None => {},
        }
        i = i + 1;
    }
}

/// Appends the fields and methods of a type declaration.
pub(crate) fn extract_members(
    node: &tree_sitter::Node,
    source: &[u8],
    fields: &mut Vec<String>,
    methods: &mut Vec<String>,
)
    ensures
        final(fields).deep_view() == old(fields).deep_view() + members_of(
            node_shape(*node),
            source@,
        ).0,
        final(methods).deep_view() == old(methods).deep_view() + members_of(
            node_shape(*node),
            source@,
        ).1,
{
    match find_body(node) {
        Some(body) => {
            collect_members(&body, source, fields, methods, false);
        },
        None => {
            assert(fields.deep_view() + Seq::<Seq<char>>::empty() =~= fields.deep_view());
            assert(methods.deep_view() + Seq::<Seq<char>>::empty() =~= methods.deep_view());
        },
    }
}

fn declares_type(kind: &str) -> (r: bool)
    ensures
        r == is_type_declaration(kind@),
{
    same_str(kind, "class_declaration") || same_str(kind, "interface_declaration") || same_str(
        kind,
        "enum_declaration",
    ) || same_str(kind, "record_declaration") || same_str(kind, "annotation_type_declaration")
}

/// The outline that the tree with root `root` gives for the source
/// `bytes`: its package, its imports, the head of its declaration and the
/// fields and methods it declares.
pub fn structure_of_tree(root: &tree_sitter::Node, bytes: &[u8]) -> (r: ClassStructure)
    ensures
        r.holds(
            outline_upto(node_shape(*root), bytes@, node_shape(*root).children.len() as int),
        ),
{
    let ghost n = node_shape(*root);
    let ghost src = bytes@;
    let mut package = String::new();
    let mut imports: Vec<String> = Vec::new();
    let mut class_declaration = String::new();
    let mut fields: Vec<String> = Vec::new();
    let mut methods: Vec<String> = Vec::new();
    let count = child_count(root);
    let mut i: u32 = 0;
    proof {
        let o = outline_upto(n, src, 0);
        assert(imports.deep_view() =~= o.imports);
        assert(fields.deep_view() =~= o.fields);
        assert(methods.deep_view() =~= o.methods);
    }
    while i < count
        invariant
            i <= count,
            count == n.children.len(),
            n == node_shape(*root),
            src == bytes@,
            package@ == outline_upto(n, src, i as int).package,
            imports.deep_view() == outline_upto(n, src, i as int).imports,
            class_declaration@ == outline_upto(n, src, i as int).class_declaration,
            fields.deep_view() == outline_upto(n, src, i as int).fields,
            methods.deep_view() == outline_upto(n, src, i as int).methods,
        decreases count - i,
    {
        let ghost o = outline_upto(n, src, i as int);
        match child_at(root, i) {
            Some(child) => {
                let kind = node_kind(&child);
                if same_str(kind.as_str(), "package_declaration") {
                    package = extract_package(&child, bytes);
                } else if same_str(kind.as_str(), "import_declaration") {
                    match extract_import(&child, bytes) {
                        Some(path) => {
                            imports.push(path);
                            assert(imports.deep_view() =~= o.imports.push(path@));
                        },
                        None => {},
                    }
                } else if declares_type(kind.as_str()) {
                    class_declaration = extract_class_declaration(&child, bytes);
                    extract_members(&child, bytes, &mut fields, &mut methods);
                }
            },
            None => {},
        }
        i = i + 1;
    }
    ClassStructure { package, imports, class_declaration, fields, methods }
}

/// The outline of the class in `source`. There is none for a source of
/// whitespace alone, and none when the parser gives no tree.
pub fn parse_class_structure(source: &str) -> (r: Option<ClassStructure>)
    ensures
        match r {
            Some(s) => outline_of(source@) is Some && s.holds(outline_of(source@)->0),
            None => outline_of(source@) is None,
        },
{
    let v = chars_of(source);
    assert(v@.subrange(0, v.len() as int) =~= v@);
    let (a, b) = trim_range(&v, 0, v.len());
    if a == b {
        return None;
    }
    let mut parser = new_parser();
    if !set_java(&mut parser) {
        return None;
    }
    match parse_source(&mut parser, source) {
        Some(tree) => {
            let root = root_node(&tree);
            Some(structure_of_tree(&root, source.as_bytes()))
        },
        None => None,
    }
}

} // verus!

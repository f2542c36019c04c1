//! Formula trees: their nodes, errors, and the mathematical model (`Tree`)
//! that the contracts speak of.
use vstd::prelude::*;

pub mod complex_definition;
pub mod grammar;
pub mod text;

use text::{char_string, push_char};
use vstd::string::StringExecFns;
use vstd::utf8::encode_utf8;

verus! {

/// An error while a formula is evaluated.
#[derive(Debug)]
pub enum CalculationError {
    ValueNotDefined(String),
    Unknown(String),
}

/// An error while a formula is read.
#[derive(Debug)]
pub enum ParseError {
    Unknown(String),
}

/// A complex number as the library holds it: its real and imaginary parts,
/// each written as a decimal numeral (as a formula writes a number).
pub struct Number {
    pub re: String,
    pub im: String,
}

/// What a node is.
pub enum ComplexNodeType {
    Add,
    Sub,
    Mul,
    Div,
    Pow,
    Scalar(Number),
    Name(String),
    Vector(Vec<ComplexNode>),
}

/// A node of a formula tree.
pub struct ComplexNode {
    pub t: ComplexNodeType,
    pub left: Option<Box<ComplexNode>>,
    pub right: Option<Box<ComplexNode>>,
}

/// The model of a node's kind.
pub enum Kind {
    Add,
    Sub,
    Mul,
    Div,
    Pow,
    /// Real and imaginary parts, as numerals.
    Scalar(Seq<char>, Seq<char>),
    Name(Seq<char>),
    Vector(Seq<Tree>),
}

/// The model of a formula tree.
pub struct Tree {
    pub kind: Kind,
    pub left: Option<Box<Tree>>,
    pub right: Option<Box<Tree>>,
}

pub open spec fn leaf(kind: Kind) -> Tree {
    Tree { kind, left: None, right: None }
}

pub open spec fn boxed(o: Option<Tree>) -> Option<Box<Tree>> {
    match o {
        Some(t) => Some(Box::new(t)),
        None => None,
    }
}

pub open spec fn node(kind: Kind, left: Option<Tree>, right: Option<Tree>) -> Tree {
    Tree { kind, left: boxed(left), right: boxed(right) }
}

/// The model of a node.
pub open spec fn tree_of(n: ComplexNode) -> Tree
    decreases n, 0int,
{
    Tree {
        kind: match n.t {
            ComplexNodeType::Add => Kind::Add,
            ComplexNodeType::Sub => Kind::Sub,
            ComplexNodeType::Mul => Kind::Mul,
            ComplexNodeType::Div => Kind::Div,
            ComplexNodeType::Pow => Kind::Pow,
            ComplexNodeType::Scalar(x) => Kind::Scalar(x.re@, x.im@),
            ComplexNodeType::Name(s) => Kind::Name(s@),
            ComplexNodeType::Vector(v) => Kind::Vector(trees_of(v@, v@.len() as int)),
        },
        left: match n.left {
            Some(b) => Some(Box::new(tree_of(*b))),
            None => None,
        },
        right: match n.right {
            Some(b) => Some(Box::new(tree_of(*b))),
            None => None,
        },
    }
}

/// The models of the first `k` nodes of `s`.
pub open spec fn trees_of(s: Seq<ComplexNode>, k: int) -> Seq<Tree>
    decreases s, k,
{
    if k <= 0 || k > s.len() {
        Seq::empty()
    } else {
        trees_of(s, k - 1).push(tree_of(s[k - 1]))
    }
}

impl View for ComplexNode {
    type V = Tree;

    open spec fn view(&self) -> Tree {
        tree_of(*self)
    }
}

/// The model of an optional boxed node.
pub open spec fn view_opt(o: Option<Box<ComplexNode>>) -> Option<Tree> {
    match o {
        Some(b) => Some((*b)@),
        None => None,
    }
}

/// The models of a vector of nodes.
pub open spec fn view_seq(v: Seq<ComplexNode>) -> Seq<Tree> {
    Seq::new(v.len(), |i: int| v[i]@)
}

/// The model of a vector node without children.
pub proof fn lemma_vector_view(n: ComplexNode)
    requires
        n.t is Vector,
        n.left is None,
        n.right is None,
    ensures
        n@ == leaf(Kind::Vector(view_seq(n.t->Vector_0@))),
{
    let items = n.t->Vector_0@;
    lemma_trees_of(items, items.len() as int);
    assert(trees_of(items, items.len() as int) =~= view_seq(items));
}

/// `trees_of` gives the models of the nodes, one by one.
pub proof fn lemma_trees_of(s: Seq<ComplexNode>, k: int)
    requires
        0 <= k <= s.len(),
    ensures
        trees_of(s, k).len() == k,
        forall|i: int| 0 <= i < k ==> #[trigger] trees_of(s, k)[i] == s[i]@,
    decreases k,
{
    if k > 0 {
        lemma_trees_of(s, k - 1);
    }
}

/// The node reached by following left children as far as they go.
pub open spec fn leftmost(t: Tree) -> Tree
    decreases t,
{
    match t.left {
        Some(l) => leftmost(*l),
        None => t,
    }
}

/// The node reached by following right children as far as they go.
pub open spec fn rightmost(t: Tree) -> Tree
    decreases t,
{
    match t.right {
        Some(r) => rightmost(*r),
        None => t,
    }
}

/// `t` with `v` hung as the left child of its leftmost node.
pub open spec fn with_leftmost(t: Tree, v: Tree) -> Tree
    decreases t,
{
    match t.left {
        Some(l) => Tree { kind: t.kind, left: Some(Box::new(with_leftmost(*l, v))), right: t.right },
        None => Tree { kind: t.kind, left: Some(Box::new(v)), right: t.right },
    }
}

/// `t` with `v` hung as the right child of its rightmost node.
pub open spec fn with_rightmost(t: Tree, v: Tree) -> Tree
    decreases t,
{
    match t.right {
        Some(r) => Tree { kind: t.kind, left: t.left, right: Some(Box::new(with_rightmost(*r, v))) },
        None => Tree { kind: t.kind, left: t.left, right: Some(Box::new(v)) },
    }
}

/// Binding level of a node's kind: sums and differences bind looser (0) than the rest (1).
pub open spec fn level(k: Kind) -> int {
    match k {
        Kind::Add | Kind::Sub => 0,
        _ => 1,
    }
}

impl ComplexNode {
    fn get_left(&self) -> (r: &Self)
        ensures
            r@ == leftmost(self@),
        decreases self,
    {
        match &self.left {
            Some(x) => x.get_left(),
            None => self,
        }
    }

    fn get_right(&self) -> (r: &Self)
        ensures
            r@ == rightmost(self@),
        decreases self,
    {
        match &self.right {
            Some(x) => x.get_right(),
            None => self,
        }
    }

    fn append_left(&mut self, v: Self)
        ensures
            final(self)@ == with_leftmost(old(self)@, v@),
        decreases *old(self),
    {
        match self.left.take() {
            Some(mut x) => {
                x.append_left(v);
                self.left = Some(x);
            },
            None => {
                self.left = Some(Box::new(v));
            },
        }
    }

    fn append_right(&mut self, v: Self)
        ensures
            final(self)@ == with_rightmost(old(self)@, v@),
        decreases *old(self),
    {
        match self.right.take() {
            Some(mut x) => {
                x.append_right(v);
                self.right = Some(x);
            },
            None => {
                self.right = Some(Box::new(v));
            },
        }
    }

    /// The binding level of the node's kind.
    fn level(&self) -> (r: u8)
        ensures
            r == level(self@.kind),
    {
        match self.t {
            ComplexNodeType::Add => 0,
            ComplexNodeType::Sub => 0,
            _ => 1,
        }
    }
}


/// Whether a name occurs in the tree, looking through left and right
/// children (not into the items of a vector).
pub open spec fn has_name(t: Tree) -> bool
    decreases t,
{
    t.kind is Name || match t.left {
        Some(l) => has_name(*l),
        None => false,
    } || match t.right {
        Some(r) => has_name(*r),
        None => false,
    }
}

/// The name of a node: the operation's name, a number's real part, a
/// name's text, or the names of a vector's items one after another.
pub open spec fn name_of(t: Tree) -> Seq<char>
    decreases t,
{
    match t.kind {
        Kind::Add => "Add"@,
        Kind::Sub => "Sub"@,
        Kind::Mul => "Mul"@,
        Kind::Div => "Div"@,
        Kind::Pow => "Pow"@,
        Kind::Scalar(re, _) => re,
        Kind::Name(s) => s,
        Kind::Vector(ts) => names_of(ts, ts.len() as int),
    }
}

/// The names of the first `k` trees of `ts`, one after another.
pub open spec fn names_of(ts: Seq<Tree>, k: int) -> Seq<char>
    decreases ts, k,
{
    if k <= 0 || k > ts.len() {
        Seq::empty()
    } else {
        names_of(ts, k - 1) + name_of(ts[k - 1])
    }
}

/// The items of a node seen as a vector: a vector's items, or the node alone.
pub open spec fn vec_of(t: Tree) -> Seq<Tree> {
    match t.kind {
        Kind::Vector(ts) => ts,
        _ => seq![t],
    }
}

/// A copy of a node.
fn clone_node(n: &ComplexNode) -> (r: ComplexNode)
    ensures
        r@ == n@,
    decreases n,
{
    let t = match &n.t {
        ComplexNodeType::Add => ComplexNodeType::Add,
        ComplexNodeType::Sub => ComplexNodeType::Sub,
        ComplexNodeType::Mul => ComplexNodeType::Mul,
        ComplexNodeType::Div => ComplexNodeType::Div,
        ComplexNodeType::Pow => ComplexNodeType::Pow,
        ComplexNodeType::Scalar(x) => ComplexNodeType::Scalar(
            Number { re: x.re.clone(), im: x.im.clone() },
        ),
        ComplexNodeType::Name(s) => ComplexNodeType::Name(s.clone()),
        ComplexNodeType::Vector(v) => {
            let mut w: Vec<ComplexNode> = Vec::new();
            let mut i: usize = 0;
            while i < v.len()
                invariant
                    i <= v.len(),
                    n.t == ComplexNodeType::Vector(*v),
                    w@.len() == i,
                    forall|j: int| 0 <= j < i ==> #[trigger] w@[j]@ == v@[j]@,
                decreases v.len() - i,
            {
                proof {
                    assert(decreases_to!(*n => n.t));
                    assert(decreases_to!(n.t => n.t->Vector_0));
                    assert(decreases_to!(*v => v@));
                    assert(decreases_to!(v@ => v@[i as int]));
                }
                let c = clone_node(&v[i]);
                w.push(c);
                i = i + 1;
            }
            proof {
                lemma_trees_of(w@, w@.len() as int);
                lemma_trees_of(v@, v@.len() as int);
                assert(trees_of(w@, w@.len() as int) =~= trees_of(v@, v@.len() as int));
            }
            ComplexNodeType::Vector(w)
        },
    };
    let left = match &n.left {
        Some(x) => Some(Box::new(clone_node(x))),
        None => None,
    };
    let right = match &n.right {
        Some(x) => Some(Box::new(clone_node(x))),
        None => None,
    };
    ComplexNode { t, left, right }
}

impl Clone for ComplexNode {
    fn clone(&self) -> (r: Self)
        ensures
            r@ == self@,
    {
        clone_node(self)
    }
}

impl Default for ComplexNode {
    /// The number zero.
    fn default() -> (r: Self)
        ensures
            r@ == leaf(Kind::Scalar(seq!['0'], seq!['0'])),
    {
        ComplexNode::fromc(Number { re: char_string('0'), im: char_string('0') })
    }
}

impl ComplexNode {
    /// A node holding the number `c`.
    pub fn fromc(c: Number) -> (r: Self)
        ensures
            r@ == leaf(Kind::Scalar(c.re@, c.im@)),
    {
        ComplexNode { t: ComplexNodeType::Scalar(c), left: None, right: None }
    }

    /// Whether the node is a vector.
    pub fn is_vec(&self) -> (r: bool)
        ensures
            r == (self@.kind is Vector),
    {
        match self.t {
            ComplexNodeType::Vector(_) => true,
            _ => false,
        }
    }

    /// The node's items when it is a vector, else the node alone.
    pub fn get_vec(&self) -> (r: Vec<ComplexNode>)
        ensures
            view_seq(r@) == vec_of(self@),
    {
        match &self.t {
            ComplexNodeType::Vector(v) => {
                let mut w: Vec<ComplexNode> = Vec::new();
                let mut i: usize = 0;
                while i < v.len()
                    invariant
                        i <= v.len(),
                        w@.len() == i,
                        forall|j: int| 0 <= j < i ==> #[trigger] w@[j]@ == v@[j]@,
                    decreases v.len() - i,
                {
                    w.push(v[i].clone());
                    i = i + 1;
                }
                proof {
                    lemma_trees_of(v@, v@.len() as int);
                    assert(trees_of(v@, v@.len() as int) =~= view_seq(w@));
                }
                w
            },
            _ => {
                let mut w: Vec<ComplexNode> = Vec::new();
                w.push(self.clone());
                assert(view_seq(w@) =~= seq![self@]);
                w
            },
        }
    }

    /// Whether no name occurs in the node or in its left and right children.
    pub fn is_const(&self) -> (r: bool)
        ensures
            r == !has_name(self@),
        decreases self,
    {
        if let ComplexNodeType::Name(_) = self.t {
            return false;
        }
        let left = match self.left {
            Some(ref x) => x.is_const(),
            _ => true,
        };
        if !left {
            return false;
        }
        let right = match self.right {
            Some(ref x) => x.is_const(),
            _ => true,
        };
        return right;
    }

    /// The node's name (see `get_name`).
    pub fn to_string(&self) -> (r: String)
        ensures
            r@ == name_of(self@),
    {
        self.get_name()
    }

    /// The node's name: the operation's name, a number's real part as
    /// written, a name's text, or the names of a vector's items in turn.
    pub fn get_name(&self) -> (r: String)
        ensures
            r@ == name_of(self@),
        decreases self,
    {
        match &self.t {
            ComplexNodeType::Add => String::from_str("Add"),
            ComplexNodeType::Sub => String::from_str("Sub"),
            ComplexNodeType::Mul => String::from_str("Mul"),
            ComplexNodeType::Div => String::from_str("Div"),
            ComplexNodeType::Pow => String::from_str("Pow"),
            ComplexNodeType::Scalar(x) => x.re.clone(),
            ComplexNodeType::Name(x) => x.clone(),
            ComplexNodeType::Vector(x) => {
                let mut s = String::new();
                let mut i: usize = 0;
                proof {
                    lemma_trees_of(x@, x@.len() as int);
                }
                while i < x.len()
                    invariant
                        i <= x.len(),
                        self.t == ComplexNodeType::Vector(*x),
                        trees_of(x@, x@.len() as int).len() == x@.len(),
                        forall|j: int|
                            0 <= j < x@.len() ==> #[trigger] trees_of(x@, x@.len() as int)[j]
                                == x@[j]@,
                        s@ == names_of(trees_of(x@, x@.len() as int), i as int),
                    decreases x.len() - i,
                {
                    proof {
                        assert(decreases_to!(*self => self.t));
                        assert(decreases_to!(self.t => self.t->Vector_0));
                        assert(decreases_to!(*x => x@));
                        assert(decreases_to!(x@ => x@[i as int]));
                    }
                    let n = x[i].get_name();
                    s.append(n.as_str());
                    i = i + 1;
                }
                s
            },
        }
    }
}


/// `n` spaces.
pub open spec fn spaces(n: int) -> Seq<char> {
    Seq::new(n as nat, |i: int| ' ')
}

/// `x`, or the largest `usize` when `x` is larger.
pub open spec fn saturated(x: int) -> int {
    if x > usize::MAX {
        usize::MAX as int
    } else {
        x
    }
}

/// The drawing of a tree: a node's name, then `_` and the drawing of its
/// right child on the same line (indented past the name, counted in bytes),
/// then a `|` line and the drawing of its left child below it.
pub open spec fn drawing(t: Tree, depth: int) -> Seq<char>
    decreases t,
{
    let p = name_of(t);
    p + match t.right {
        Some(r) => seq!['_'] + drawing(*r, saturated(depth + 1 + (encode_utf8(p).len() as usize))),
        None => Seq::empty(),
    } + match t.left {
        Some(l) => seq!['\n'] + spaces(depth) + seq!['|', '\n'] + spaces(depth) + drawing(*l, depth),
        None => Seq::empty(),
    }
}

/// Appends `n` spaces.
fn push_spaces(s: &mut String, n: usize)
    ensures
        final(s)@ == old(s)@ + spaces(n as int),
{
    let mut i: usize = 0;
    while i < n
        invariant
            i <= n,
            s@ == old(s)@ + spaces(i as int),
        decreases n - i,
    {
        push_char(s, ' ');
        i = i + 1;
        assert(s@ =~= old(s)@ + spaces(i as int));
    }
}

/// Appends the drawing of `n` at `depth`.
#[verifier::rlimit(40)]
fn draw(n: &ComplexNode, s: &mut String, depth: usize)
    ensures
        final(s)@ == old(s)@ + drawing(n@, depth as int),
    decreases n,
{
    let pushed = n.to_string();
    s.append(pushed.as_str());
    let ghost after_name = s@;
    if let Some(x) = &n.right {
        push_char(s, '_');
        let d = depth.saturating_add(1).saturating_add(pushed.as_str().len());
        assert(d == saturated(depth + 1 + (encode_utf8(pushed@).len() as usize)));
        draw(x, s, d);
    }
    let ghost after_right = s@;
    if let Some(x) = &n.left {
        push_char(s, '\n');
        push_spaces(s, depth);
        push_char(s, '|');
        push_char(s, '\n');
        push_spaces(s, depth);
        draw(x, s, depth);
    }
    proof {
        let p = name_of(n@);
        let rt = match n@.right {
            Some(r) => seq!['_'] + drawing(*r, saturated(depth + 1 + (encode_utf8(p).len() as usize))),
            None => Seq::<char>::empty(),
        };
        let lt = match n@.left {
            Some(l) => seq!['\n'] + spaces(depth as int) + seq!['|', '\n'] + spaces(depth as int)
                + drawing(*l, depth as int),
            None => Seq::<char>::empty(),
        };
        assert(after_name =~= old(s)@ + p);
        assert(after_right =~= old(s)@ + p + rt);
        assert(s@ =~= old(s)@ + p + rt + lt);
    }
}

impl ComplexNode {
    /// The drawing of the tree (what the tree shows as text).
    pub fn display_string(&self) -> (r: String)
        ensures
            r@ == drawing(self@, 0),
    {
        let mut s = String::new();
        draw(self, &mut s, 0);
        assert(s@ =~= drawing(self@, 0));
        s
    }
}

impl CalculationError {
    /// The message of the error.
    pub fn to_string(&self) -> (r: String)
        ensures
            r@ == match self {
                CalculationError::ValueNotDefined(s) => s@ + " is not defined as function/value"@,
                CalculationError::Unknown(s) => "CalculationError : "@ + s@,
            },
    {
        match self {
            CalculationError::ValueNotDefined(s) => {
                let mut r = s.clone();
                r.append(" is not defined as function/value");
                r
            },
            CalculationError::Unknown(s) => {
                let mut r = String::from_str("CalculationError : ");
                r.append(s.as_str());
                r
            },
        }
    }

    /// A short description of the kind of error.
    pub fn description(&self) -> (r: &'static str)
        ensures
            r@ == "CalculationError"@,
    {
        "CalculationError"
    }
}

impl ParseError {
    /// The message of the error.
    pub fn to_string(&self) -> (r: String)
        ensures
            r@ == match self {
                ParseError::Unknown(s) => s@,
            },
    {
        match self {
            ParseError::Unknown(s) => s.clone(),
        }
    }

    /// A short description of the kind of error.
    pub fn description(&self) -> (r: &'static str)
        ensures
            r@ == "ParseError"@,
    {
        "ParseError"
    }
}

/// A copy of a formula (one whose model equals the formula's, as `clone`
/// gives) has the same drawing, the same name, the same constness and the
/// same vector-ness: each of these is read off the model alone.
pub proof fn law_copy_reads_the_same(n: ComplexNode, m: ComplexNode)
    requires
        m@ == n@,
    ensures
        drawing(m@, 0) == drawing(n@, 0),
        name_of(m@) == name_of(n@),
        has_name(m@) == has_name(n@),
        (m@.kind is Vector) == (n@.kind is Vector),
{
}

/// The node reached from `t` by following the steps of `path` (`false` for
/// the left child, `true` for the right one), if every step exists.
pub open spec fn subtree_at(t: Tree, path: Seq<bool>) -> Option<Tree>
    decreases path.len(),
{
    if path.len() == 0 {
        Some(t)
    } else {
        match (if path[0] { t.right } else { t.left }) {
            Some(u) => subtree_at(*u, path.drop_first()),
            None => None,
        }
    }
}

proof fn lemma_path_to_name(t: Tree, path: Seq<bool>)
    requires
        subtree_at(t, path) matches Some(u) && u.kind is Name,
    ensures
        has_name(t),
    decreases path.len(),
{
    if path.len() > 0 {
        if path[0] {
            let r = t.right->Some_0;
            lemma_path_to_name(*r, path.drop_first());
        } else {
            let l = t.left->Some_0;
            lemma_path_to_name(*l, path.drop_first());
        }
    }
}

proof fn lemma_name_has_path(t: Tree) -> (path: Seq<bool>)
    requires
        has_name(t),
    ensures
        subtree_at(t, path) matches Some(u) && u.kind is Name,
    decreases t,
{
    if t.kind is Name {
        Seq::empty()
    } else if t.left is Some && has_name(*t.left->Some_0) {
        let p = lemma_name_has_path(*t.left->Some_0);
        let path = seq![false] + p;
        assert(path.drop_first() =~= p);
        path
    } else {
        let p = lemma_name_has_path(*t.right->Some_0);
        let path = seq![true] + p;
        assert(path.drop_first() =~= p);
        path
    }
}

/// A formula holds a name (so `is_const` is false) exactly when some node
/// reached from the root by left and right steps is a name: names in the
/// left operands count as much as names in the right ones.
pub proof fn law_name_anywhere(t: Tree)
    ensures
        has_name(t) <==> exists|path: Seq<bool>|
            #[trigger] subtree_at(t, path) matches Some(u) && u.kind is Name,
{
    if has_name(t) {
        let p = lemma_name_has_path(t);
    }
    if exists|path: Seq<bool>| #[trigger] subtree_at(t, path) matches Some(u) && u.kind is Name {
        let p = choose|path: Seq<bool>| #[trigger] subtree_at(t, path) matches Some(u) && u.kind is Name;
        lemma_path_to_name(t, p);
    }
}

/// `s` with `d` spaces put after each of its line breaks.
pub open spec fn indent(s: Seq<char>, d: int) -> Seq<char>
    decreases s.len(),
{
    if s.len() == 0 {
        s
    } else {
        (if s[0] == '\n' {
            seq!['\n'] + spaces(d)
        } else {
            seq![s[0]]
        }) + indent(s.drop_first(), d)
    }
}

/// No name in the tree holds a line break.
pub open spec fn names_on_one_line(t: Tree) -> bool
    decreases t,
{
    &&& !name_of(t).contains('\n')
    &&& match t.left {
        Some(l) => names_on_one_line(*l),
        None => true,
    }
    &&& match t.right {
        Some(r) => names_on_one_line(*r),
        None => true,
    }
}

/// How far right the drawing of `t` reaches beyond its starting column
/// (in bytes), along its chains of right children.
pub open spec fn reach(t: Tree) -> int
    decreases t,
{
    let r = match t.right {
        Some(r) => 1 + encode_utf8(name_of(t)).len() + reach(*r),
        None => 0,
    };
    let l = match t.left {
        Some(l) => reach(*l),
        None => 0,
    };
    if r > l {
        r
    } else {
        l
    }
}

proof fn lemma_reach_nonneg(t: Tree)
    ensures
        reach(t) >= 0,
    decreases t,
{
    if let Some(r) = t.right {
        lemma_reach_nonneg(*r);
    }
    if let Some(l) = t.left {
        lemma_reach_nonneg(*l);
    }
}

proof fn lemma_indent_concat(a: Seq<char>, b: Seq<char>, d: int)
    ensures
        indent(a + b, d) == indent(a, d) + indent(b, d),
    decreases a.len(),
{
    if a.len() == 0 {
        assert(a + b =~= b);
        assert(indent(a, d) =~= Seq::<char>::empty());
        assert(indent(a, d) + indent(b, d) =~= indent(b, d));
    } else {
        lemma_indent_concat(a.drop_first(), b, d);
        assert((a + b).drop_first() =~= a.drop_first() + b);
        assert((a + b)[0] == a[0]);
        let h = if a[0] == '\n' {
            seq!['\n'] + spaces(d)
        } else {
            seq![a[0]]
        };
        assert(indent(a + b, d) =~= h + (indent(a.drop_first(), d) + indent(b, d)));
        assert(indent(a, d) =~= h + indent(a.drop_first(), d));
    }
}

proof fn lemma_indent_plain(s: Seq<char>, d: int)
    requires
        !s.contains('\n'),
    ensures
        indent(s, d) == s,
    decreases s.len(),
{
    if s.len() > 0 {
        assert(s[0] != '\n') by {
            if s[0] == '\n' {
                assert(s.contains('\n'));
            }
        }
        assert(!s.drop_first().contains('\n')) by {
            if s.drop_first().contains('\n') {
                let k = choose|k: int| 0 <= k < s.drop_first().len() && s.drop_first()[k] == '\n';
                assert(s[k + 1] == '\n');
            }
        }
        lemma_indent_plain(s.drop_first(), d);
        assert(seq![s[0]] + s.drop_first() =~= s);
    }
}

proof fn lemma_spaces_plain(n: int)
    ensures
        !spaces(n).contains('\n'),
{
    if spaces(n).contains('\n') {
        let k = choose|k: int| 0 <= k < spaces(n).len() && spaces(n)[k] == '\n';
    }
}

proof fn lemma_indent_char(c: char, d: int)
    ensures
        indent(seq![c], d) == if c == '\n' {
            seq!['\n'] + spaces(d)
        } else {
            seq![c]
        },
{
    let s = seq![c];
    assert(s.drop_first() =~= Seq::<char>::empty());
    assert(indent(s.drop_first(), d) =~= Seq::<char>::empty());
    assert(s[0] == c);
    let h = if c == '\n' {
        seq!['\n'] + spaces(d)
    } else {
        seq![c]
    };
    assert(indent(s, d) =~= h + indent(s.drop_first(), d));
}

proof fn lemma_indent_twice(s: Seq<char>, a: int, b: int)
    requires
        a >= 0,
        b >= 0,
    ensures
        indent(indent(s, a), b) == indent(s, a + b),
    decreases s.len(),
{
    if s.len() > 0 {
        lemma_indent_twice(s.drop_first(), a, b);
        let rest = indent(s.drop_first(), a);
        if s[0] == '\n' {
            lemma_indent_concat(seq!['\n'] + spaces(a), rest, b);
            lemma_indent_concat(seq!['\n'], spaces(a), b);
            lemma_spaces_plain(a);
            lemma_indent_plain(spaces(a), b);
            lemma_indent_char('\n', b);
            assert(spaces(b) + spaces(a) =~= spaces(a + b));
            assert(indent(indent(s, a), b) =~= seq!['\n'] + spaces(a + b) + indent(
                s.drop_first(),
                a + b,
            ));
        } else {
            lemma_indent_concat(seq![s[0]], rest, b);
            lemma_indent_char(s[0], b);
        }
    }
}

/// A subtree drawn from column `d` keeps that indentation on all its lines:
/// its drawing is the drawing from column 0 with `d` spaces after every line
/// break. So the left child of a node drawn at column `d` is drawn at column
/// `d` too, and the right child further right. This holds where no name
/// holds a line break and no column passes the largest `usize`.
pub proof fn law_drawing_shifts(t: Tree, d: int)
    requires
        d >= 0,
        d + reach(t) <= usize::MAX,
        names_on_one_line(t),
    ensures
        drawing(t, d) == indent(drawing(t, 0), d),
    decreases t,
{
    lemma_reach_nonneg(t);
    let p = name_of(t);
    let w: int = encode_utf8(p).len() as int;
    let right_d = match t.right {
        Some(r) => seq!['_'] + drawing(*r, saturated(d + 1 + (w as usize))),
        None => Seq::empty(),
    };
    let right_0 = match t.right {
        Some(r) => seq!['_'] + drawing(*r, saturated(0 + 1 + (w as usize))),
        None => Seq::empty(),
    };
    let left_d = match t.left {
        Some(l) => seq!['\n'] + spaces(d) + seq!['|', '\n'] + spaces(d) + drawing(*l, d),
        None => Seq::empty(),
    };
    let left_0 = match t.left {
        Some(l) => seq!['\n'] + spaces(0) + seq!['|', '\n'] + spaces(0) + drawing(*l, 0),
        None => Seq::empty(),
    };
    assert(drawing(t, d) == p + right_d + left_d);
    assert(drawing(t, 0) == p + right_0 + left_0);
    lemma_indent_concat(p + right_0, left_0, d);
    lemma_indent_concat(p, right_0, d);
    lemma_indent_plain(p, d);
    match t.right {
        Some(r) => {
            lemma_reach_nonneg(*r);
            assert(w as usize == w);
            assert(saturated(d + 1 + (w as usize)) == d + 1 + w);
            assert(saturated(0 + 1 + (w as usize)) == 1 + w);
            law_drawing_shifts(*r, 1 + w);
            law_drawing_shifts(*r, d + 1 + w);
            lemma_indent_twice(drawing(*r, 0), 1 + w, d);
            lemma_indent_concat(seq!['_'], drawing(*r, 1 + w), d);
            lemma_indent_char('_', d);
            assert(indent(right_0, d) == right_d);
        },
        None => {
            assert(indent(right_0, d) =~= right_d);
        },
    }
    match t.left {
        Some(l) => {
            law_drawing_shifts(*l, d);
            let bar = seq!['\n'] + spaces(0) + seq!['|', '\n'] + spaces(0);
            assert(bar =~= seq!['\n'] + seq!['|'] + seq!['\n']);
            lemma_indent_concat(bar, drawing(*l, 0), d);
            lemma_indent_concat(seq!['\n'] + seq!['|'], seq!['\n'], d);
            lemma_indent_concat(seq!['\n'], seq!['|'], d);
            lemma_indent_char('\n', d);
            lemma_indent_char('|', d);
            assert(indent(left_0, d) =~= left_d);
        },
        None => {
            assert(indent(left_0, d) =~= left_d);
        },
    }
}

} // verus!

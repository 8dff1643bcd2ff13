//! Bounded engineering expressions: a recursive-descent reader over one line
//! of `+ - * /`, parentheses, parameter names and unit literals, and the
//! dimension analysis that checks a formula against its declared unit.
use crate::ir::{check_literal, literal_spec, SIUnit};
use crate::text::{
    append_str, chars_of, i64_text, int_text, is_alpha_exec, is_ascii_alpha, is_ascii_digit,
    is_digit_exec, is_word_char, is_word_exec, owned, string_of, text_less, text_lt, utf8_len,
    utf8_width, utf8_width_exec, lemma_utf8_len_push, lemma_utf8_len_bounds, lemma_utf8_len_empty,
    lemma_utf8_len_is_byte_len,
};
use vstd::prelude::*;

verus! {

pub const MAX_EXPRESSION_BYTES: usize = 16384;
pub const MAX_EXPRESSION_NODES: usize = 1024;
pub const MAX_EXPRESSION_DEPTH: usize = 64;
pub const MAX_PARAMETERS: usize = 4096;
pub const MAX_EXPRESSION_WORK: usize = 1000000;
pub const PARAMETER_SCHEMA_VERSION: &'static str = "kessetsu.parameters.v1";

#[derive(Debug, Clone, Copy, PartialEq, Eq, Structural)]
pub enum Operator {
    Add,
    Subtract,
    Multiply,
    Divide,
}

/// The mathematical shape of an expression tree.
pub enum Tree {
    Literal(Seq<char>),
    Name(Seq<char>),
    Unary(bool, Box<Tree>),
    Binary(Operator, Box<Tree>, Box<Tree>),
}

#[derive(Debug, PartialEq)]
pub enum Node {
    Literal(String),
    Name(String),
    Unary { negative: bool, operand: Box<Node> },
    Binary { operator: Operator, left: Box<Node>, right: Box<Node> },
}

impl Node {
    pub open spec fn tree(&self) -> Tree
        decreases self,
    {
        match self {
            Node::Literal(t) => Tree::Literal(t@),
            Node::Name(n) => Tree::Name(n@),
            Node::Unary { negative, operand } => Tree::Unary(*negative, Box::new(operand.tree())),
            Node::Binary { operator, left, right } => Tree::Binary(
                *operator,
                Box::new(left.tree()),
                Box::new(right.tree()),
            ),
        }
    }

    /// A deep copy with the same tree.
    pub fn duplicate(&self) -> (r: Node)
        ensures
            r.tree() == self.tree(),
        decreases self,
    {
        match self {
            Node::Literal(t) => Node::Literal(t.clone()),
            Node::Name(n) => Node::Name(n.clone()),
            Node::Unary { negative, operand } => Node::Unary {
                negative: *negative,
                operand: Box::new(operand.duplicate()),
            },
            Node::Binary { operator, left, right } => Node::Binary {
                operator: *operator,
                left: Box::new(left.duplicate()),
                right: Box::new(right.duplicate()),
            },
        }
    }
}

impl Clone for Node {
    fn clone(&self) -> (r: Node)
        ensures
            r.tree() == self.tree(),
    {
        self.duplicate()
    }
}

/// Number of nodes in a tree.
pub open spec fn tree_size(t: Tree) -> nat
    decreases t,
{
    match t {
        Tree::Literal(_) => 1,
        Tree::Name(_) => 1,
        Tree::Unary(_, o) => 1 + tree_size(*o),
        Tree::Binary(_, l, r) => 1 + tree_size(*l) + tree_size(*r),
    }
}

/// A parsed expression; `source` keeps the author's text for provenance.
#[derive(Debug, PartialEq)]
pub struct Expression {
    source: String,
    root: Node,
}

impl Expression {
    pub closed spec fn tree(&self) -> Tree {
        self.root.tree()
    }

    pub closed spec fn source_text(&self) -> Seq<char> {
        self.source@
    }

    #[verifier::type_invariant]
    spec fn bounded(&self) -> bool {
        tree_size(self.root.tree()) <= MAX_EXPRESSION_NODES
    }

    /// The author's text.
    pub fn source(&self) -> (r: &String)
        ensures
            r@ == self.source_text(),
    {
        &self.source
    }

    /// A deep copy with the same source and tree.
    pub fn duplicate(&self) -> (r: Expression)
        ensures
            r.source_text() == self.source_text(),
            r.tree() == self.tree(),
    {
        proof {
            use_type_invariant(self);
        }
        Expression { source: self.source.clone(), root: self.root.duplicate() }
    }
}

impl Clone for Expression {
    fn clone(&self) -> (r: Expression)
        ensures
            r.source_text() == self.source_text(),
            r.tree() == self.tree(),
    {
        self.duplicate()
    }
}

/// A typed parameter declaration.
#[derive(Debug, Clone)]
pub struct ParameterDecl {
    pub name: String,
    pub unit: SIUnit,
    pub expression: Expression,
    pub line: usize,
    pub column: usize,
    pub instance_path: Vec<String>,
    pub default_expression: Option<String>,
}

/// Why resolving the parameter declarations failed: the diagnostic code and
/// message, and the parameter with the line and column of its declaration.
#[derive(Debug)]
pub struct ParameterError {
    pub code: &'static str,
    pub message: String,
    pub name: String,
    pub line: usize,
    pub column: usize,
}

#[derive(Debug, Clone, PartialEq, Eq)]
pub struct ExpressionError {
    pub message: String,
    /// Zero-based byte offset within the original expression.
    pub offset: usize,
}

/// An expression error whose offset is given in characters; it is reported in bytes.
pub type SpecError = (Seq<char>, int);

pub type SpecParse = Result<(Tree, int, int, int), SpecError>;

pub open spec fn is_space(c: char) -> bool {
    c == ' ' || c == '\t'
}

/// First position at or after `p` that is not a space or tab.
pub open spec fn skip_spaces(s: Seq<char>, p: int) -> int
    decreases s.len() - p,
{
    if 0 <= p < s.len() && is_space(s[p]) {
        skip_spaces(s, p + 1)
    } else {
        p
    }
}

/// First position at or after `p` that does not continue a name.
pub open spec fn word_end(s: Seq<char>, p: int) -> int
    decreases s.len() - p,
{
    if 0 <= p < s.len() && is_word_char(s[p]) {
        word_end(s, p + 1)
    } else {
        p
    }
}

pub open spec fn digits_from(s: Seq<char>, p: int) -> int
    decreases s.len() - p,
{
    if 0 <= p < s.len() && is_ascii_digit(s[p]) {
        digits_from(s, p + 1)
    } else {
        p
    }
}

pub open spec fn is_unit_char(c: char) -> bool {
    is_ascii_alpha(c) || c == 'µ' || c == 'Ω' || c == '%'
}

pub open spec fn unit_chars_end(s: Seq<char>, p: int) -> int
    decreases s.len() - p,
{
    if 0 <= p < s.len() && is_unit_char(s[p]) {
        unit_chars_end(s, p + 1)
    } else {
        p
    }
}

pub open spec fn at(s: Seq<char>, p: int, c: char) -> bool {
    0 <= p < s.len() && s[p] == c
}

/// End of a number literal's text: mantissa, optional exponent, then unit characters.
pub open spec fn literal_end(s: Seq<char>, q: int) -> int {
    let a = digits_from(s, q);
    let b = if at(s, a, '.') { digits_from(s, a + 1) } else { a };
    let c = if at(s, b, 'e') || at(s, b, 'E') {
        let d = if at(s, b + 1, '+') || at(s, b + 1, '-') { b + 2 } else { b + 1 };
        digits_from(s, d)
    } else {
        b
    };
    unit_chars_end(s, c)
}

/// Counts one more node; `depth` is the height of the node being built.
pub open spec fn count_node(nodes: int, depth: int, pos: int) -> Result<int, SpecError> {
    if nodes + 1 > MAX_EXPRESSION_NODES || depth > MAX_EXPRESSION_DEPTH {
        Err(("Expression exceeds the node or nesting limit"@, pos))
    } else {
        Ok(nodes + 1)
    }
}

/// An operand: a signed operand, a parenthesized sum, a name or a literal.
pub open spec fn parse_atom(s: Seq<char>, p: int, nesting: int, nodes: int) -> SpecParse
    decreases s.len() - p, 0int,
{
    if p < 0 || p > s.len() {
        Err(("Expected a quantity, parameter name or '('"@, p))
    } else if nesting >= MAX_EXPRESSION_DEPTH {
        Err(("Expression exceeds the nesting limit"@, p))
    } else {
        let q = skip_spaces(s, p);
        if q < p || q > s.len() {
            Err(("Expected a quantity, parameter name or '('"@, q))
        } else if at(s, q, '+') || at(s, q, '-') {
            match parse_atom(s, q + 1, nesting + 1, nodes) {
                Err(e) => Err(e),
                Ok((operand, d, p2, n2)) => match count_node(n2, d + 1, p2) {
                    Err(e) => Err(e),
                    Ok(n3) => Ok((Tree::Unary(s[q] == '-', Box::new(operand)), d + 1, p2, n3)),
                },
            }
        } else if at(s, q, '(') {
            match parse_sum(s, q + 1, nesting + 1, nodes) {
                Err(e) => Err(e),
                Ok((value, d, p2, n2)) => {
                    let p3 = skip_spaces(s, p2);
                    if !at(s, p3, ')') {
                        Err(("Expected closing ')'"@, p3))
                    } else {
                        Ok((value, d, p3 + 1, n2))
                    }
                },
            }
        } else if q < s.len() && is_ascii_alpha(s[q]) {
            let e = word_end(s, q + 1);
            match count_node(nodes, 1, e) {
                Err(err) => Err(err),
                Ok(n2) => Ok((Tree::Name(s.subrange(q, e)), 1, e, n2)),
            }
        } else if q < s.len() && (is_ascii_digit(s[q]) || s[q] == '.') {
            let e = literal_end(s, q);
            let text = s.subrange(q, e);
            match literal_spec(text) {
                Err(m) => Err((m, q)),
                Ok(_) => match count_node(nodes, 1, e) {
                    Err(err) => Err(err),
                    Ok(n2) => Ok((Tree::Literal(text), 1, e, n2)),
                },
            }
        } else {
            Err(("Expected a quantity, parameter name or '('"@, q))
        }
    }
}

/// A product of operands.
pub open spec fn parse_product(s: Seq<char>, p: int, nesting: int, nodes: int) -> SpecParse
    decreases s.len() - p, 1int,
{
    if p < 0 || p > s.len() {
        Err(("Expected a quantity, parameter name or '('"@, p))
    } else {
        match parse_atom(s, p, nesting, nodes) {
            Err(e) => Err(e),
            Ok((left, d, p2, n2)) => if p2 <= p || p2 > s.len() {
                Err(("Expected a quantity, parameter name or '('"@, p2))
            } else {
                chain(s, nesting, true, left, d, p2, n2)
            },
        }
    }
}

/// A sum of products.
pub open spec fn parse_sum(s: Seq<char>, p: int, nesting: int, nodes: int) -> SpecParse
    decreases s.len() - p, 2int,
{
    if p < 0 || p > s.len() {
        Err(("Expected a quantity, parameter name or '('"@, p))
    } else {
        match parse_product(s, p, nesting, nodes) {
            Err(e) => Err(e),
            Ok((left, d, p2, n2)) => if p2 <= p || p2 > s.len() {
                Err(("Expected a quantity, parameter name or '('"@, p2))
            } else {
                chain(s, nesting, false, left, d, p2, n2)
            },
        }
    }
}

/// The operator at `q` for a product (`*`, `/`) or a sum (`+`, `-`).
pub open spec fn operator_at(s: Seq<char>, q: int, product: bool) -> Option<Operator> {
    if product && at(s, q, '*') {
        Some(Operator::Multiply)
    } else if product && at(s, q, '/') {
        Some(Operator::Divide)
    } else if !product && at(s, q, '+') {
        Some(Operator::Add)
    } else if !product && at(s, q, '-') {
        Some(Operator::Subtract)
    } else {
        None
    }
}

/// Left-associative continuation of a product or sum after its first operand.
pub open spec fn chain(
    s: Seq<char>,
    nesting: int,
    product: bool,
    left: Tree,
    depth: int,
    pos: int,
    nodes: int,
) -> SpecParse
    decreases s.len() - pos, 3int,
{
    let q = skip_spaces(s, pos);
    if pos < 0 || pos > s.len() || q < pos || q > s.len() {
        Err(("Expected a quantity, parameter name or '('"@, q))
    } else {
        match operator_at(s, q, product) {
            None => Ok((left, depth, q, nodes)),
            Some(op) => {
                let right = if product {
                    parse_atom(s, q + 1, nesting, nodes)
                } else {
                    parse_product(s, q + 1, nesting, nodes)
                };
                match right {
                    Err(e) => Err(e),
                    Ok((r, rd, p2, n2)) => {
                        let d = 1 + if depth >= rd { depth } else { rd };
                        match count_node(n2, d, p2) {
                            Err(e) => Err(e),
                            Ok(n3) => if p2 <= pos || p2 > s.len() {
                                Err(("Expected a quantity, parameter name or '('"@, p2))
                            } else {
                                chain(
                                    s,
                                    nesting,
                                    product,
                                    Tree::Binary(op, Box::new(left), Box::new(r)),
                                    d,
                                    p2,
                                    n3,
                                )
                            },
                        }
                    },
                }
            },
        }
    }
}

/// Index of the first line break, if any.
#[verifier::opaque]
pub open spec fn first_break(s: Seq<char>) -> Option<int> {
    if exists|i: int| 0 <= i < s.len() && (s[i] == '\n' || s[i] == '\r') {
        Some(
            choose|i: int|
                0 <= i < s.len() && (s[i] == '\n' || s[i] == '\r') && forall|j: int|
                    0 <= j < i ==> !(s[j] == '\n' || s[j] == '\r'),
        )
    } else {
        None
    }
}

/// What `parse_expression` yields for a source text: the tree, or the message
/// and character position of the first error.
pub open spec fn parse_spec(s: Seq<char>, byte_len: nat) -> Result<Tree, SpecError> {
    if byte_len > MAX_EXPRESSION_BYTES {
        Err(("Expression exceeds the byte limit"@, 0))
    } else {
        match first_break(s) {
            Some(i) => Err(("Expressions must stay on one line"@, i)),
            None => parse_line_spec(s),
        }
    }
}

struct Reader {
    text: Vec<char>,
}

type Parsed = Result<(Node, usize, usize, usize), (String, usize)>;

pub open spec fn parsed_view(r: Result<(Node, usize, usize, usize), (String, usize)>) -> SpecParse {
    match r {
        Ok((n, d, p, c)) => Ok((n.tree(), d as int, p as int, c as int)),
        Err((m, p)) => Err((m@, p as int)),
    }
}

pub open spec fn parse_ok_bounds(r: SpecParse, p: int, nodes: int, len: int) -> bool {
    &&& r matches Ok((_, d, p2, n2)) ==> p < p2 <= len && nodes < n2 <= MAX_EXPRESSION_NODES && 1
        <= d <= MAX_EXPRESSION_DEPTH
    &&& r matches Err((_, q)) ==> 0 <= q <= len
}

fn failure(message: &str, pos: usize) -> (r: (String, usize))
    ensures
        r.0@ == message@,
        r.1 == pos,
{
    (owned(message), pos)
}

impl Reader {
    fn spaces(&self, p: usize) -> (q: usize)
        requires
            p <= self.text.len(),
        ensures
            q == skip_spaces(self.text@, p as int),
            p <= q <= self.text.len(),
    {
        let mut q = p;
        while q < self.text.len() && (self.text[q] == ' ' || self.text[q] == '\t')
            invariant
                p <= q <= self.text.len(),
                skip_spaces(self.text@, p as int) == skip_spaces(self.text@, q as int),
            decreases self.text.len() - q,
        {
            q = q + 1;
        }
        q
    }

    fn word(&self, p: usize) -> (q: usize)
        requires
            p <= self.text.len(),
        ensures
            q == word_end(self.text@, p as int),
            p <= q <= self.text.len(),
    {
        let mut q = p;
        while q < self.text.len() && is_word_exec(self.text[q])
            invariant
                p <= q <= self.text.len(),
                word_end(self.text@, p as int) == word_end(self.text@, q as int),
            decreases self.text.len() - q,
        {
            q = q + 1;
        }
        q
    }

    fn digits(&self, p: usize) -> (q: usize)
        requires
            p <= self.text.len(),
        ensures
            q == digits_from(self.text@, p as int),
            p <= q <= self.text.len(),
    {
        let mut q = p;
        while q < self.text.len() && is_digit_exec(self.text[q])
            invariant
                p <= q <= self.text.len(),
                digits_from(self.text@, p as int) == digits_from(self.text@, q as int),
            decreases self.text.len() - q,
        {
            q = q + 1;
        }
        q
    }

    fn is_at(&self, p: usize, c: char) -> (r: bool)
        ensures
            r == at(self.text@, p as int, c),
    {
        p < self.text.len() && self.text[p] == c
    }

    fn literal(&self, q: usize) -> (e: usize)
        requires
            q <= self.text.len(),
        ensures
            e == literal_end(self.text@, q as int),
            q <= e <= self.text.len(),
    {
        let a = self.digits(q);
        let b = if self.is_at(a, '.') { self.digits(a + 1) } else { a };
        let c = if self.is_at(b, 'e') || self.is_at(b, 'E') {
            let d = if self.is_at(b + 1, '+') || self.is_at(b + 1, '-') { b + 2 } else { b + 1 };
            self.digits(d)
        } else {
            b
        };
        let mut k = c;
        while k < self.text.len() && (is_alpha_exec(self.text[k]) || self.text[k] == 'µ'
            || self.text[k] == 'Ω' || self.text[k] == '%')
            invariant
                c <= k <= self.text.len(),
                unit_chars_end(self.text@, c as int) == unit_chars_end(self.text@, k as int),
            decreases self.text.len() - k,
        {
            k = k + 1;
        }
        k
    }

    fn count(nodes: usize, depth: usize, pos: usize) -> (r: Result<usize, (String, usize)>)
        requires
            nodes <= MAX_EXPRESSION_NODES,
            depth <= MAX_EXPRESSION_DEPTH + 1,
        ensures
            match (r, count_node(nodes as int, depth as int, pos as int)) {
                (Ok(a), Ok(b)) => a == b,
                (Err((m, p)), Err((m2, p2))) => m@ == m2 && p == p2,
                _ => false,
            },
    {
        if nodes + 1 > MAX_EXPRESSION_NODES || depth > MAX_EXPRESSION_DEPTH {
            Err(failure("Expression exceeds the node or nesting limit", pos))
        } else {
            Ok(nodes + 1)
        }
    }

    fn atom(&self, p: usize, nesting: usize, nodes: usize) -> (r: Parsed)
        requires
            p <= self.text.len(),
            nodes <= MAX_EXPRESSION_NODES,
            nesting <= MAX_EXPRESSION_DEPTH,
        ensures
            parsed_view(r) == parse_atom(self.text@, p as int, nesting as int, nodes as int),
            parse_ok_bounds(parsed_view(r), p as int, nodes as int, self.text.len() as int),
            r matches Ok((n, _, _, c)) ==> c == nodes + tree_size(n.tree()),
        decreases self.text.len() - p, 0int,
    {
        if nesting >= MAX_EXPRESSION_DEPTH {
            return Err(failure("Expression exceeds the nesting limit", p));
        }
        let q = self.spaces(p);
        if self.is_at(q, '+') || self.is_at(q, '-') {
            let negative = self.text[q] == '-';
            let (operand, d, p2, n2) = self.atom(q + 1, nesting + 1, nodes)?;
            let n3 = Self::count(n2, d + 1, p2)?;
            Ok((Node::Unary { negative, operand: Box::new(operand) }, d + 1, p2, n3))
        } else if self.is_at(q, '(') {
            let (value, d, p2, n2) = self.sum(q + 1, nesting + 1, nodes)?;
            let p3 = self.spaces(p2);
            if !self.is_at(p3, ')') {
                return Err(failure("Expected closing ')'", p3));
            }
            Ok((value, d, p3 + 1, n2))
        } else if q < self.text.len() && is_alpha_exec(self.text[q]) {
            let e = self.word(q + 1);
            let n2 = Self::count(nodes, 1, e)?;
            Ok((Node::Name(string_of(&self.text, q, e)), 1, e, n2))
        } else if q < self.text.len() && (is_digit_exec(self.text[q]) || self.text[q] == '.') {
            let e = self.literal(q);
            let text = string_of(&self.text, q, e);
            match check_literal(text.as_str()) {
                Err(m) => Err((m, q)),
                Ok(_) => {
                    let n2 = Self::count(nodes, 1, e)?;
                    proof {
                        if e <= q {
                            assert(self.text@[q as int] == text@[0]);
                            assert(false);
                        }
                    }
                    Ok((Node::Literal(text), 1, e, n2))
                },
            }
        } else {
            Err(failure("Expected a quantity, parameter name or '('", q))
        }
    }

    fn product(&self, p: usize, nesting: usize, nodes: usize) -> (r: Parsed)
        requires
            p <= self.text.len(),
            nodes <= MAX_EXPRESSION_NODES,
            nesting <= MAX_EXPRESSION_DEPTH,
        ensures
            parsed_view(r) == parse_product(self.text@, p as int, nesting as int, nodes as int),
            parse_ok_bounds(parsed_view(r), p as int, nodes as int, self.text.len() as int),
            r matches Ok((n, _, _, c)) ==> c == nodes + tree_size(n.tree()),
        decreases self.text.len() - p, 1int,
    {
        let (left, d, p2, n2) = self.atom(p, nesting, nodes)?;
        self.chain(nesting, true, left, d, p2, n2)
    }

    fn sum(&self, p: usize, nesting: usize, nodes: usize) -> (r: Parsed)
        requires
            p <= self.text.len(),
            nodes <= MAX_EXPRESSION_NODES,
            nesting <= MAX_EXPRESSION_DEPTH,
        ensures
            parsed_view(r) == parse_sum(self.text@, p as int, nesting as int, nodes as int),
            parse_ok_bounds(parsed_view(r), p as int, nodes as int, self.text.len() as int),
            r matches Ok((n, _, _, c)) ==> c == nodes + tree_size(n.tree()),
        decreases self.text.len() - p, 2int,
    {
        let (left, d, p2, n2) = self.product(p, nesting, nodes)?;
        self.chain(nesting, false, left, d, p2, n2)
    }

    fn chain(
        &self,
        nesting: usize,
        product: bool,
        left: Node,
        depth: usize,
        pos: usize,
        nodes: usize,
    ) -> (r: Parsed)
        requires
            pos <= self.text.len(),
            nodes <= MAX_EXPRESSION_NODES,
            nesting <= MAX_EXPRESSION_DEPTH,
            1 <= depth <= MAX_EXPRESSION_DEPTH,
        ensures
            parsed_view(r) == chain(
                self.text@,
                nesting as int,
                product,
                left.tree(),
                depth as int,
                pos as int,
                nodes as int,
            ),
            r matches Ok((_, d, p2, n2)) ==> pos <= p2 <= self.text.len() && nodes <= n2
                <= MAX_EXPRESSION_NODES && 1 <= d <= MAX_EXPRESSION_DEPTH,
            r matches Err((_, q)) ==> q <= self.text.len(),
            r matches Ok((n, _, _, c)) ==> c + tree_size(left.tree()) == nodes + tree_size(
                n.tree(),
            ),
        decreases self.text.len() - pos, 3int,
    {
        let q = self.spaces(pos);
        let op = if product && self.is_at(q, '*') {
            Some(Operator::Multiply)
        } else if product && self.is_at(q, '/') {
            Some(Operator::Divide)
        } else if !product && self.is_at(q, '+') {
            Some(Operator::Add)
        } else if !product && self.is_at(q, '-') {
            Some(Operator::Subtract)
        } else {
            None
        };
        match op {
            None => Ok((left, depth, q, nodes)),
            Some(op) => {
                let (right, rd, p2, n2) = if product {
                    self.atom(q + 1, nesting, nodes)?
                } else {
                    self.product(q + 1, nesting, nodes)?
                };
                let d = 1 + if depth >= rd { depth } else { rd };
                let n3 = Self::count(n2, d, p2)?;
                self.chain(
                    nesting,
                    product,
                    Node::Binary { operator: op, left: Box::new(left), right: Box::new(right) },
                    d,
                    p2,
                    n3,
                )
            },
        }
    }
}

/// Byte offset of character position `p`.
fn byte_offset(cs: &Vec<char>, p: usize) -> (b: usize)
    requires
        p <= cs.len(),
        cs.len() <= MAX_EXPRESSION_BYTES,
    ensures
        b == utf8_len(cs@.take(p as int)),
{
    let mut b: usize = 0;
    let mut i: usize = 0;
    proof {
        lemma_utf8_len_empty(cs@);
    }
    while i < p
        invariant
            i <= p <= cs.len(),
            b == utf8_len(cs@.take(i as int)),
            cs.len() <= MAX_EXPRESSION_BYTES,
        decreases p - i,
    {
        proof {
            assert(cs@.take(i + 1) =~= cs@.take(i as int).push(cs@[i as int]));
            lemma_utf8_len_push(cs@.take(i as int), cs@[i as int]);
            lemma_utf8_len_bounds(cs@.take(i + 1));
        }
        b = b + utf8_width_exec(cs[i]);
        i = i + 1;
    }
    b
}


pub open spec fn is_break(c: char) -> bool {
    c == '\n' || c == '\r'
}

fn find_break(cs: &Vec<char>) -> (r: Option<usize>)
    ensures
        match r {
            Some(i) => first_break(cs@) == Some(i as int) && i < cs.len(),
            None => first_break(cs@) is None,
        },
{
    reveal(first_break);
    let ghost s = cs@;
    let mut i: usize = 0;
    while i < cs.len()
        invariant
            i <= cs.len(),
            s == cs@,
            forall|j: int| 0 <= j < i ==> !is_break(#[trigger] s[j]),
        decreases cs.len() - i,
    {
        if cs[i] == '\n' || cs[i] == '\r' {
            proof {
                reveal(first_break);
                assert(is_break(s[i as int]));
                let k = choose|k: int|
                    0 <= k < s.len() && (s[k] == '\n' || s[k] == '\r') && forall|j: int|
                        0 <= j < k ==> !(s[j] == '\n' || s[j] == '\r');
                if k > i {
                    assert(!is_break(s[i as int]));
                }
                if k < i {
                    assert(!is_break(s[k]));
                }
            }
            return Some(i);
        }
        i = i + 1;
    }
    proof {
        reveal(first_break);
        if exists|k: int| 0 <= k < s.len() && (s[k] == '\n' || s[k] == '\r') {
            let k = choose|k: int| 0 <= k < s.len() && (s[k] == '\n' || s[k] == '\r');
            assert(!is_break(s[k]));
        }
    }
    None
}

/// Parses one line of `+ - * /` over parenthesized operands, parameter names
/// and engineering literals, within the node, nesting and byte limits.
pub fn parse_expression(source: &str) -> (r: Result<Expression, ExpressionError>)
    ensures
        match parse_spec(source@, utf8_len(source@)) {
            Ok(tree) => r matches Ok(e) && e.tree() == tree && e.source_text() == source@,
            Err(e) => r matches Err(err) && err.message@ == e.0 && err.offset == utf8_len(
                source@.take(e.1),
            ),
        },
        r matches Ok(e) ==> utf8_len(source@) <= MAX_EXPRESSION_BYTES && first_break(source@) is None
            && tree_size(e.tree()) <= MAX_EXPRESSION_NODES,
        r matches Err(err) ==> err.offset <= utf8_len(source@),
        r matches Ok(e) ==> source.len() <= MAX_EXPRESSION_BYTES,
        r matches Err(err) ==> err.offset <= source.len(),
{
    let cs = chars_of(source);
    let ghost s = source@;
    proof {
        lemma_utf8_len_bounds(s);
        lemma_utf8_len_empty(s);
    }
    if cs.len() > MAX_EXPRESSION_BYTES {
        return Err(ExpressionError { message: owned("Expression exceeds the byte limit"), offset: 0 });
    }
    let total = byte_offset(&cs, cs.len());
    assert(cs@.take(cs.len() as int) =~= s);
    proof {
        lemma_utf8_len_is_byte_len(source);
    }
    if total > MAX_EXPRESSION_BYTES {
        return Err(ExpressionError { message: owned("Expression exceeds the byte limit"), offset: 0 });
    }
    if let Some(i) = find_break(&cs) {
        assert(first_break(source@) == Some(i as int));
        assert(utf8_len(source@) <= MAX_EXPRESSION_BYTES);
        let offset = byte_offset(&cs, i);
        proof {
            assert(cs@.take(i as int) =~= cs@.subrange(0, i as int));
            crate::text::lemma_utf8_len_subrange(cs@, 0, i as int);
        }
        return Err(ExpressionError { message: owned("Expressions must stay on one line"), offset });
    }
    parse_body(source, cs)
}

/// The spec of a line that has passed the byte and line-break checks.
#[verifier::opaque]
pub open spec fn parse_line_spec(s: Seq<char>) -> Result<Tree, SpecError> {
    match parse_sum(s, 0, 0, 0) {
        Err(e) => Err(e),
        Ok((root, _, p, _)) => {
            let q = skip_spaces(s, p);
            if q != s.len() {
                Err(("Unexpected token; use explicit +, -, * or /"@, q))
            } else {
                Ok(root)
            }
        },
    }
}

fn parse_body(source: &str, cs: Vec<char>) -> (r: Result<Expression, ExpressionError>)
    requires
        cs@ == source@,
        cs.len() <= MAX_EXPRESSION_BYTES,
        utf8_len(source@) <= MAX_EXPRESSION_BYTES,
        first_break(source@) is None,
    ensures
        match parse_line_spec(source@) {
            Ok(tree) => r matches Ok(e) && e.tree() == tree && e.source_text() == source@,
            Err(e) => r matches Err(err) && err.message@ == e.0 && err.offset == utf8_len(
                source@.take(e.1),
            ),
        },
        r matches Ok(e) ==> utf8_len(source@) <= MAX_EXPRESSION_BYTES && first_break(source@) is None
            && tree_size(e.tree()) <= MAX_EXPRESSION_NODES,
        r matches Err(err) ==> err.offset <= utf8_len(source@),
{
    reveal(parse_line_spec);
    let reader = Reader { text: cs };
    match reader.sum(0, 0, 0) {
        Err((message, p)) => {
            let offset = byte_offset(&reader.text, p);
            proof {
                assert(reader.text@.take(p as int) =~= reader.text@.subrange(0, p as int));
                crate::text::lemma_utf8_len_subrange(reader.text@, 0, p as int);
            }
            Err(ExpressionError { message, offset })
        },
        Ok((root, _, p, _)) => {
            let q = reader.spaces(p);
            if q != reader.text.len() {
                let offset = byte_offset(&reader.text, q);
                proof {
                    assert(reader.text@.take(q as int) =~= reader.text@.subrange(0, q as int));
                    crate::text::lemma_utf8_len_subrange(reader.text@, 0, q as int);
                }
                return Err(
                    ExpressionError {
                        message: owned("Unexpected token; use explicit +, -, * or /"),
                        offset,
                    },
                );
            }
            Ok(Expression { source: owned(source), root })
        },
    }
}


/// Names that a tree refers to; `pi` is a built-in constant, not a dependency.
pub open spec fn tree_names(t: Tree) -> Set<Seq<char>>
    decreases t,
{
    match t {
        Tree::Literal(_) => Set::empty(),
        Tree::Name(n) => if n == "pi"@ {
            Set::empty()
        } else {
            set![n]
        },
        Tree::Unary(_, o) => tree_names(*o),
        Tree::Binary(_, l, r) => tree_names(*l).union(tree_names(*r)),
    }
}

/// The tree with `prefix` prepended to every name except `pi`.
pub open spec fn qualify_tree(t: Tree, prefix: Seq<char>) -> Tree
    decreases t,
{
    match t {
        Tree::Literal(x) => Tree::Literal(x),
        Tree::Name(n) => if n == "pi"@ {
            Tree::Name(n)
        } else {
            Tree::Name(prefix + n)
        },
        Tree::Unary(neg, o) => Tree::Unary(neg, Box::new(qualify_tree(*o, prefix))),
        Tree::Binary(op, l, r) => Tree::Binary(
            op,
            Box::new(qualify_tree(*l, prefix)),
            Box::new(qualify_tree(*r, prefix)),
        ),
    }
}

/// Qualifying names leaves the shape, and so the node count, unchanged.
pub proof fn lemma_qualify_size(t: Tree, prefix: Seq<char>)
    ensures
        tree_size(qualify_tree(t, prefix)) == tree_size(t),
    decreases t,
{
    match t {
        Tree::Unary(_, o) => lemma_qualify_size(*o, prefix),
        Tree::Binary(_, l, r) => {
            lemma_qualify_size(*l, prefix);
            lemma_qualify_size(*r, prefix);
        },
        _ => {},
    }
}

/// The prefix `p` put before a name.
pub open spec fn prefixed(p: Seq<char>) -> spec_fn(Seq<char>) -> Seq<char> {
    |n: Seq<char>| p + n
}

/// With a prefix that ends in `.`, qualifying puts the prefix before every
/// name the tree depends on, and the tree depends on nothing else.
pub proof fn lemma_qualify_names(t: Tree, p: Seq<char>)
    requires
        p.len() > 0,
        p.last() == '.',
    ensures
        tree_names(qualify_tree(t, p)) == tree_names(t).map(prefixed(p)),
    decreases t,
{
    let f = prefixed(p);
    match t {
        Tree::Literal(_) => {
            assert(tree_names(t).map(f) =~= Set::<Seq<char>>::empty());
        },
        Tree::Name(n) => {
            if n == "pi"@ {
                assert(tree_names(t).map(f) =~= Set::<Seq<char>>::empty());
            } else {
                reveal_strlit("pi");
                assert((p + n)[p.len() - 1] == '.');
                if p + n == "pi"@ {
                    assert("pi"@.len() == 2);
                    assert("pi"@[0] == 'p' && "pi"@[1] == 'i');
                    assert(p.len() - 1 < 2);
                    assert(false);
                }
                assert(set![n].map(f) =~= set![p + n]) by {
                    assert(set![n].contains(n) && f(n) == p + n);
                }
            }
        },
        Tree::Unary(_, o) => {
            lemma_qualify_names(*o, p);
        },
        Tree::Binary(_, l, r) => {
            lemma_qualify_names(*l, p);
            lemma_qualify_names(*r, p);
            let a = tree_names(*l);
            let b = tree_names(*r);
            assert forall|x: Seq<char>| #[trigger] a.union(b).map(f).contains(x) <==> a.map(f).union(b.map(f)).contains(x) by {
                if a.union(b).map(f).contains(x) {
                    let y = choose|y: Seq<char>| a.union(b).contains(y) && f(y) == x;
                    if a.contains(y) {
                        assert(a.map(f).contains(f(y)));
                    } else {
                        assert(b.map(f).contains(f(y)));
                    }
                }
                if a.map(f).contains(x) {
                    let y = choose|y: Seq<char>| a.contains(y) && f(y) == x;
                    assert(a.union(b).contains(y));
                    assert(a.union(b).map(f).contains(f(y)));
                }
                if b.map(f).contains(x) {
                    let y = choose|y: Seq<char>| b.contains(y) && f(y) == x;
                    assert(a.union(b).contains(y));
                    assert(a.union(b).map(f).contains(f(y)));
                }
            }
            assert(a.union(b).map(f) =~= a.map(f).union(b.map(f)));
        },
    }
}

/// Strictly increasing sequence of names: sorted and free of duplicates.
pub open spec fn sorted_names(v: Seq<Seq<char>>) -> bool {
    forall|i: int, j: int| 0 <= i < j < v.len() ==> text_lt(v[i], v[j])
}

/// Putting one prefix before two names keeps their order.
pub proof fn lemma_text_lt_prefix(p: Seq<char>, a: Seq<char>, b: Seq<char>)
    ensures
        text_lt(p + a, p + b) == text_lt(a, b),
    decreases p.len(),
{
    if p.len() == 0 {
        assert(p + a =~= a);
        assert(p + b =~= b);
    } else {
        assert((p + a)[0] == p[0] && (p + b)[0] == p[0]);
        assert((p + a).drop_first() =~= p.drop_first() + a);
        assert((p + b).drop_first() =~= p.drop_first() + b);
        lemma_text_lt_prefix(p.drop_first(), a, b);
    }
}

/// With a prefix that ends in `.`, the ascending dependency list of a
/// qualified tree is the original ascending list with the prefix before each
/// name, in the same order.
pub proof fn lemma_qualified_dependencies(t: Tree, p: Seq<char>, d: Seq<Seq<char>>, q: Seq<Seq<char>>)
    requires
        p.len() > 0,
        p.last() == '.',
        sorted_names(d),
        d.to_set() == tree_names(t),
        sorted_names(q),
        q.to_set() == tree_names(qualify_tree(t, p)),
    ensures
        q == d.map_values(prefixed(p)),
{
    let f = prefixed(p);
    let m = d.map_values(f);
    lemma_qualify_names(t, p);
    assert forall|i: int, j: int| 0 <= i < j < m.len() implies text_lt(m[i], m[j]) by {
        lemma_text_lt_prefix(p, d[i], d[j]);
    }
    assert forall|s: Seq<char>| m.contains(s) <==> q.contains(s) by {
        if m.contains(s) {
            let i = choose|i: int| 0 <= i < m.len() && m[i] == s;
            assert(d.to_set().contains(d[i]));
            assert(tree_names(t).map(f).contains(f(d[i])));
            assert(q.to_set().contains(s));
        }
        if q.contains(s) {
            assert(q.to_set().contains(s));
            assert(tree_names(t).map(f).contains(s));
            let y = choose|y: Seq<char>| tree_names(t).contains(y) && f(y) == s;
            assert(d.to_set().contains(y));
            let i = choose|i: int| 0 <= i < d.len() && d[i] == y;
            assert(m[i] == s);
        }
    }
    crate::graph::lemma_sorted_unique(m, q);
}

fn is_pi(n: &String) -> (r: bool)
    ensures
        r == (n@ == "pi"@),
{
    let cs = chars_of(n.as_str());
    crate::text::eq_str(&cs, "pi")
}

/// Inserts a name into a strictly increasing vector, keeping it so.
pub fn insert_name(v: &mut Vec<String>, name: String)
    requires
        sorted_names(crate::ir::views(old(v)@)),
    ensures
        sorted_names(crate::ir::views(final(v)@)),
        crate::ir::views(final(v)@).to_set() == crate::ir::views(old(v)@).to_set().insert(name@),
        final(v)@.len() <= old(v)@.len() + 1,
{
    let ghost old_views = crate::ir::views(v@);
    let mut i: usize = 0;
    while i < v.len() && text_less(v[i].as_str(), name.as_str())
        invariant
            i <= v.len(),
            v@ == old(v)@,
            old_views == crate::ir::views(v@),
            sorted_names(old_views),
            forall|j: int| 0 <= j < i ==> text_lt(#[trigger] old_views[j], name@),
        decreases v.len() - i,
    {
        i = i + 1;
    }
    if i < v.len() && v[i] == name {
        proof {
            assert(old_views[i as int] == name@);
            assert(old_views.to_set() =~= old_views.to_set().insert(name@));
        }
        return;
    }
    proof {
        if i < v.len() {
            crate::text::lemma_text_lt_total(old_views[i as int], name@);
        }
    }
    v.insert(i, name);
    proof {
        let nv = crate::ir::views(v@);
        assert(nv =~= old_views.take(i as int).push(name@) + old_views.skip(i as int));
        assert forall|a: int, b: int| 0 <= a < b < nv.len() implies text_lt(nv[a], nv[b]) by {
            if a < i && b == i {
            } else if a < i && b > i {
                assert(nv[b] == old_views[b - 1]);
            } else if a == i && b > i {
                assert(nv[b] == old_views[b - 1]);
                if b - 1 > i {
                    crate::text::lemma_text_lt_transitive(name@, old_views[i as int], old_views[b - 1]);
                }
            } else if a > i {
                assert(nv[a] == old_views[a - 1]);
                assert(nv[b] == old_views[b - 1]);
            }
        }
        assert forall|x: Seq<char>| nv.to_set().contains(x) <==> old_views.to_set().insert(name@).contains(x) by {
            if nv.to_set().contains(x) {
                let k = choose|k: int| 0 <= k < nv.len() && nv[k] == x;
                if k < i {
                    assert(old_views[k] == x);
                } else if k > i {
                    assert(old_views[k - 1] == x);
                }
            }
            if old_views.to_set().contains(x) {
                let k = choose|k: int| 0 <= k < old_views.len() && old_views[k] == x;
                if k < i {
                    assert(nv[k] == x);
                } else {
                    assert(nv[k + 1] == x);
                }
            }
            if x == name@ {
                assert(nv[i as int] == x);
            }
        }
        assert(nv.to_set() =~= old_views.to_set().insert(name@));
    }
}

fn collect_names(node: &Node, out: &mut Vec<String>)
    requires
        sorted_names(crate::ir::views(old(out)@)),
        old(out)@.len() + tree_size(node.tree()) <= usize::MAX,
    ensures
        sorted_names(crate::ir::views(final(out)@)),
        crate::ir::views(final(out)@).to_set() == crate::ir::views(old(out)@).to_set().union(
            tree_names(node.tree()),
        ),
        final(out)@.len() <= old(out)@.len() + tree_size(node.tree()),
    decreases node,
{
    match node {
        Node::Literal(_) => {
            assert(crate::ir::views(out@).to_set().union(Set::empty()) =~= crate::ir::views(
                out@,
            ).to_set());
        },
        Node::Name(n) => {
            if !is_pi(n) {
                insert_name(out, n.clone());
                assert(crate::ir::views(old(out)@).to_set().insert(n@) =~= crate::ir::views(
                    old(out)@,
                ).to_set().union(set![n@]));
            } else {
                assert(crate::ir::views(out@).to_set().union(Set::empty()) =~= crate::ir::views(
                    out@,
                ).to_set());
            }
        },
        Node::Unary { operand, .. } => {
            collect_names(operand, out);
        },
        Node::Binary { left, right, .. } => {
            collect_names(left, out);
            collect_names(right, out);
            assert(crate::ir::views(old(out)@).to_set().union(tree_names(left.tree())).union(
                tree_names(right.tree()),
            ) =~= crate::ir::views(old(out)@).to_set().union(
                tree_names(left.tree()).union(tree_names(right.tree())),
            ));
        },
    }
}

fn count_nodes(node: &Node) -> (r: usize)
    requires
        tree_size(node.tree()) <= usize::MAX,
    ensures
        r == tree_size(node.tree()),
    decreases node,
{
    match node {
        Node::Literal(_) => 1,
        Node::Name(_) => 1,
        Node::Unary { operand, .. } => 1 + count_nodes(operand),
        Node::Binary { left, right, .. } => 1 + count_nodes(left) + count_nodes(right),
    }
}

fn qualify_node(node: &Node, prefix: &str) -> (r: Node)
    ensures
        r.tree() == qualify_tree(node.tree(), prefix@),
    decreases node,
{
    match node {
        Node::Literal(t) => Node::Literal(t.clone()),
        Node::Name(n) => if is_pi(n) {
            Node::Name(n.clone())
        } else {
            let mut q = owned(prefix);
            append_str(&mut q, n.as_str());
            Node::Name(q)
        },
        Node::Unary { negative, operand } => Node::Unary {
            negative: *negative,
            operand: Box::new(qualify_node(operand, prefix)),
        },
        Node::Binary { operator, left, right } => Node::Binary {
            operator: *operator,
            left: Box::new(qualify_node(left, prefix)),
            right: Box::new(qualify_node(right, prefix)),
        },
    }
}

impl Expression {
    /// Rebinds every name but `pi` under `prefix`, keeping the author's text.
    pub fn qualify(&self, prefix: &str) -> (r: Expression)
        ensures
            r.tree() == qualify_tree(self.tree(), prefix@),
            r.source_text() == self.source_text(),
    {
        proof {
            use_type_invariant(self);
            lemma_qualify_size(self.root.tree(), prefix@);
        }
        Expression { source: self.source.clone(), root: qualify_node(&self.root, prefix) }
    }

    /// Number of nodes in the expression tree.
    pub fn node_count(&self) -> (r: usize)
        ensures
            r == tree_size(self.tree()),
            r <= MAX_EXPRESSION_NODES,
    {
        proof {
            use_type_invariant(self);
        }
        count_nodes(&self.root)
    }

    /// The parameters the expression refers to, in ascending order, each once.
    pub fn dependencies(&self) -> (r: Vec<String>)
        ensures
            sorted_names(crate::ir::views(r@)),
            crate::ir::views(r@).to_set() == tree_names(self.tree()),
    {
        proof {
            use_type_invariant(self);
        }
        let mut out: Vec<String> = Vec::new();
        collect_names(&self.root, &mut out);
        assert(crate::ir::views(Seq::<String>::empty()).to_set() =~= Set::<Seq<char>>::empty());
        assert(Set::<Seq<char>>::empty().union(tree_names(self.root.tree())) =~= tree_names(
            self.root.tree(),
        ));
        out
    }
}


/// Exponents of volt, ampere, second and angle.
#[derive(Debug, Clone, Copy, PartialEq, Eq, Structural)]
pub struct Dimension {
    pub volt: i16,
    pub ampere: i16,
    pub second: i16,
    pub angle: i16,
}

pub open spec fn dim(v: int, a: int, s: int, g: int) -> (int, int, int, int) {
    (v, a, s, g)
}

/// The dimension of a unit as (volt, ampere, second, angle) exponents.
pub open spec fn unit_dimension(u: SIUnit) -> (int, int, int, int) {
    match u {
        SIUnit::Volt => dim(1, 0, 0, 0),
        SIUnit::Ampere => dim(0, 1, 0, 0),
        SIUnit::Second => dim(0, 0, 1, 0),
        SIUnit::Hertz => dim(0, 0, -1, 0),
        SIUnit::Ohm => dim(1, -1, 0, 0),
        SIUnit::Farad => dim(-1, 1, 1, 0),
        SIUnit::Henry => dim(1, -1, 1, 0),
        SIUnit::Watt => dim(1, 1, 0, 0),
        SIUnit::Joule => dim(1, 1, 1, 0),
        SIUnit::Degree => dim(0, 0, 0, 1),
        SIUnit::Ratio => dim(0, 0, 0, 0),
        SIUnit::Percent => dim(0, 0, 0, 0),
    }
}

pub open spec fn dim_add(a: (int, int, int, int), b: (int, int, int, int)) -> (int, int, int, int) {
    (a.0 + b.0, a.1 + b.1, a.2 + b.2, a.3 + b.3)
}

pub open spec fn dim_sub(a: (int, int, int, int), b: (int, int, int, int)) -> (int, int, int, int) {
    (a.0 - b.0, a.1 - b.1, a.2 - b.2, a.3 - b.3)
}

/// The unit dimensions obey the SI relations between the units: volt,
/// ampere, second and degree are independent, and every other unit is made
/// of them as physics makes it: R = V / I, f = 1 / t, C = t / R (from
/// t = RC), L = R t (from t = L / R), P = V I, E = P t, and ratios and
/// percentages are dimensionless.
pub proof fn lemma_unit_relations()
    ensures
        unit_dimension(SIUnit::Volt) == (1int, 0int, 0int, 0int),
        unit_dimension(SIUnit::Ampere) == (0int, 1int, 0int, 0int),
        unit_dimension(SIUnit::Second) == (0int, 0int, 1int, 0int),
        unit_dimension(SIUnit::Degree) == (0int, 0int, 0int, 1int),
        unit_dimension(SIUnit::Ohm) == dim_sub(unit_dimension(SIUnit::Volt), unit_dimension(SIUnit::Ampere)),
        dim_add(unit_dimension(SIUnit::Hertz), unit_dimension(SIUnit::Second)) == unit_dimension(SIUnit::Ratio),
        unit_dimension(SIUnit::Farad) == dim_sub(unit_dimension(SIUnit::Second), unit_dimension(SIUnit::Ohm)),
        unit_dimension(SIUnit::Henry) == dim_add(unit_dimension(SIUnit::Ohm), unit_dimension(SIUnit::Second)),
        unit_dimension(SIUnit::Watt) == dim_add(unit_dimension(SIUnit::Volt), unit_dimension(SIUnit::Ampere)),
        unit_dimension(SIUnit::Joule) == dim_add(unit_dimension(SIUnit::Watt), unit_dimension(SIUnit::Second)),
        unit_dimension(SIUnit::Ratio) == (0int, 0int, 0int, 0int),
        unit_dimension(SIUnit::Percent) == unit_dimension(SIUnit::Ratio),
{
}

impl Dimension {
    pub open spec fn view(&self) -> (int, int, int, int) {
        (self.volt as int, self.ampere as int, self.second as int, self.angle as int)
    }
}

pub fn dimension(unit: SIUnit) -> (d: Dimension)
    ensures
        d.view() == unit_dimension(unit),
{
    let (volt, ampere, second, angle): (i16, i16, i16, i16) = match unit {
        SIUnit::Volt => (1, 0, 0, 0),
        SIUnit::Ampere => (0, 1, 0, 0),
        SIUnit::Second => (0, 0, 1, 0),
        SIUnit::Hertz => (0, 0, -1, 0),
        SIUnit::Ohm => (1, -1, 0, 0),
        SIUnit::Farad => (-1, 1, 1, 0),
        SIUnit::Henry => (1, -1, 1, 0),
        SIUnit::Watt => (1, 1, 0, 0),
        SIUnit::Joule => (1, 1, 1, 0),
        SIUnit::Degree => (0, 0, 0, 1),
        SIUnit::Ratio | SIUnit::Percent => (0, 0, 0, 0),
    };
    Dimension { volt, ampere, second, angle }
}

/// The unit that a parameter declaration names.
pub open spec fn parameter_unit_spec(t: Seq<char>) -> Option<SIUnit> {
    if t == "Ohm"@ {
        Some(SIUnit::Ohm)
    } else if t == "F"@ {
        Some(SIUnit::Farad)
    } else if t == "H"@ {
        Some(SIUnit::Henry)
    } else if t == "V"@ {
        Some(SIUnit::Volt)
    } else if t == "A"@ {
        Some(SIUnit::Ampere)
    } else if t == "Hz"@ {
        Some(SIUnit::Hertz)
    } else if t == "s"@ {
        Some(SIUnit::Second)
    } else if t == "W"@ {
        Some(SIUnit::Watt)
    } else if t == "J"@ {
        Some(SIUnit::Joule)
    } else if t == "ratio"@ {
        Some(SIUnit::Ratio)
    } else if t == "percent"@ {
        Some(SIUnit::Percent)
    } else if t == "deg"@ {
        Some(SIUnit::Degree)
    } else {
        None
    }
}

pub fn parameter_unit(text: &str) -> (r: Option<SIUnit>)
    ensures
        r == parameter_unit_spec(text@),
{
    let t = chars_of(text);
    if crate::text::eq_str(&t, "Ohm") {
        Some(SIUnit::Ohm)
    } else if crate::text::eq_str(&t, "F") {
        Some(SIUnit::Farad)
    } else if crate::text::eq_str(&t, "H") {
        Some(SIUnit::Henry)
    } else if crate::text::eq_str(&t, "V") {
        Some(SIUnit::Volt)
    } else if crate::text::eq_str(&t, "A") {
        Some(SIUnit::Ampere)
    } else if crate::text::eq_str(&t, "Hz") {
        Some(SIUnit::Hertz)
    } else if crate::text::eq_str(&t, "s") {
        Some(SIUnit::Second)
    } else if crate::text::eq_str(&t, "W") {
        Some(SIUnit::Watt)
    } else if crate::text::eq_str(&t, "J") {
        Some(SIUnit::Joule)
    } else if crate::text::eq_str(&t, "ratio") {
        Some(SIUnit::Ratio)
    } else if crate::text::eq_str(&t, "percent") {
        Some(SIUnit::Percent)
    } else if crate::text::eq_str(&t, "deg") {
        Some(SIUnit::Degree)
    } else {
        None
    }
}

/// `compound dimension [v, a, s, g] (V, A, s, angle)`.
pub open spec fn compound_text(d: (int, int, int, int)) -> Seq<char> {
    "compound dimension ["@ + int_text(d.0) + ", "@ + int_text(d.1) + ", "@ + int_text(d.2)
        + ", "@ + int_text(d.3) + "] (V, A, s, angle)"@
}

/// How a dimension reads in messages: the first matching unit name, else its exponents.
pub open spec fn describe_spec(d: (int, int, int, int)) -> Seq<char> {
    if d == unit_dimension(SIUnit::Ohm) {
        "Ohm"@
    } else if d == unit_dimension(SIUnit::Farad) {
        "F"@
    } else if d == unit_dimension(SIUnit::Henry) {
        "H"@
    } else if d == unit_dimension(SIUnit::Volt) {
        "V"@
    } else if d == unit_dimension(SIUnit::Ampere) {
        "A"@
    } else if d == unit_dimension(SIUnit::Hertz) {
        "Hz"@
    } else if d == unit_dimension(SIUnit::Second) {
        "s"@
    } else if d == unit_dimension(SIUnit::Watt) {
        "W"@
    } else if d == unit_dimension(SIUnit::Ratio) {
        "ratio"@
    } else if d == unit_dimension(SIUnit::Degree) {
        "deg"@
    } else {
        compound_text(d)
    }
}

pub fn describe(d: Dimension) -> (r: String)
    ensures
        r@ == describe_spec(d.view()),
{
    if d == dimension(SIUnit::Ohm) {
        owned("Ohm")
    } else if d == dimension(SIUnit::Farad) {
        owned("F")
    } else if d == dimension(SIUnit::Henry) {
        owned("H")
    } else if d == dimension(SIUnit::Volt) {
        owned("V")
    } else if d == dimension(SIUnit::Ampere) {
        owned("A")
    } else if d == dimension(SIUnit::Hertz) {
        owned("Hz")
    } else if d == dimension(SIUnit::Second) {
        owned("s")
    } else if d == dimension(SIUnit::Watt) {
        owned("W")
    } else if d == dimension(SIUnit::Ratio) {
        owned("ratio")
    } else if d == dimension(SIUnit::Degree) {
        owned("deg")
    } else {
        let mut r = owned("compound dimension [");
        append_str(&mut r, i64_text(d.volt as i64).as_str());
        append_str(&mut r, ", ");
        append_str(&mut r, i64_text(d.ampere as i64).as_str());
        append_str(&mut r, ", ");
        append_str(&mut r, i64_text(d.second as i64).as_str());
        append_str(&mut r, ", ");
        append_str(&mut r, i64_text(d.angle as i64).as_str());
        append_str(&mut r, "] (V, A, s, angle)");
        r
    }
}

/// The `Debug` name of a unit.
pub open spec fn unit_name(u: SIUnit) -> Seq<char> {
    match u {
        SIUnit::Ohm => "Ohm"@,
        SIUnit::Farad => "Farad"@,
        SIUnit::Henry => "Henry"@,
        SIUnit::Volt => "Volt"@,
        SIUnit::Ampere => "Ampere"@,
        SIUnit::Hertz => "Hertz"@,
        SIUnit::Second => "Second"@,
        SIUnit::Watt => "Watt"@,
        SIUnit::Joule => "Joule"@,
        SIUnit::Ratio => "Ratio"@,
        SIUnit::Percent => "Percent"@,
        SIUnit::Degree => "Degree"@,
    }
}

pub fn unit_name_exec(u: SIUnit) -> (r: &'static str)
    ensures
        r@ == unit_name(u),
{
    match u {
        SIUnit::Ohm => "Ohm",
        SIUnit::Farad => "Farad",
        SIUnit::Henry => "Henry",
        SIUnit::Volt => "Volt",
        SIUnit::Ampere => "Ampere",
        SIUnit::Hertz => "Hertz",
        SIUnit::Second => "Second",
        SIUnit::Watt => "Watt",
        SIUnit::Joule => "Joule",
        SIUnit::Ratio => "Ratio",
        SIUnit::Percent => "Percent",
        SIUnit::Degree => "Degree",
    }
}

/// Names and units of a binding list.
pub open spec fn unit_views(u: Seq<(String, SIUnit)>) -> Seq<(Seq<char>, SIUnit)> {
    u.map_values(|p: (String, SIUnit)| (p.0@, p.1))
}

/// The unit bound to a name: the last binding of that name wins, as with a map
/// built by successive inserts.
pub open spec fn lookup_unit(units: Seq<(Seq<char>, SIUnit)>, name: Seq<char>) -> Option<SIUnit>
    decreases units.len(),
{
    if units.len() == 0 {
        None
    } else if units.last().0 == name {
        Some(units.last().1)
    } else {
        lookup_unit(units.drop_last(), name)
    }
}

pub fn find_unit(units: &Vec<(String, SIUnit)>, name: &String) -> (r: Option<SIUnit>)
    ensures
        r == lookup_unit(unit_views(units@), name@),
{
    let ghost uv = unit_views(units@);
    let mut i = units.len();
    assert(uv.take(i as int) =~= uv);
    while i > 0
        invariant
            i <= units.len(),
            uv == unit_views(units@),
            lookup_unit(uv, name@) == lookup_unit(uv.take(i as int), name@),
        decreases i,
    {
        assert(uv.take(i as int).drop_last() =~= uv.take(i - 1));
        assert(uv.take(i as int).last() == (units@[i - 1].0@, units@[i - 1].1));
        if units[i - 1].0 == *name {
            return Some(units[i - 1].1);
        }
        i = i - 1;
    }
    None
}

pub open spec fn in_i16(x: int) -> bool {
    i16::MIN <= x <= i16::MAX
}

/// Exponents of a product or quotient, or `None` when one leaves the `i16` range.
pub open spec fn combine_spec(multiply: bool, a: (int, int, int, int), b: (int, int, int, int)) -> Option<
    (int, int, int, int),
> {
    let c = if multiply {
        (a.0 + b.0, a.1 + b.1, a.2 + b.2, a.3 + b.3)
    } else {
        (a.0 - b.0, a.1 - b.1, a.2 - b.2, a.3 - b.3)
    };
    if in_i16(c.0) && in_i16(c.1) && in_i16(c.2) && in_i16(c.3) {
        Some(c)
    } else {
        None
    }
}

pub open spec fn literal_dimension(x: Seq<char>) -> Result<(int, int, int, int), Seq<char>> {
    match literal_spec(x) {
        Err(m) => Err(m),
        Ok((_, u)) => Ok(
            unit_dimension(
                match u {
                    Some(v) => v,
                    None => SIUnit::Ratio,
                },
            ),
        ),
    }
}

/// The dimension of a formula, or the message of the first problem found
/// (left operand before right operand).
pub open spec fn tree_dimension(t: Tree, units: Seq<(Seq<char>, SIUnit)>) -> Result<
    (int, int, int, int),
    Seq<char>,
>
    decreases t,
{
    match t {
        Tree::Literal(x) => literal_dimension(x),
        Tree::Name(n) => if n == "pi"@ {
            Ok(unit_dimension(SIUnit::Ratio))
        } else {
            match lookup_unit(units, n) {
                Some(u) => Ok(unit_dimension(u)),
                None => Err("Unknown parameter '"@ + n + "'"@),
            }
        },
        Tree::Unary(_, o) => tree_dimension(*o, units),
        Tree::Binary(op, l, r) => match tree_dimension(*l, units) {
            Err(m) => Err(m),
            Ok(a) => match tree_dimension(*r, units) {
                Err(m) => Err(m),
                Ok(b) => if op == Operator::Add || op == Operator::Subtract {
                    if a != b {
                        Err("Cannot add/subtract incompatible dimensions"@)
                    } else {
                        Ok(a)
                    }
                } else {
                    match combine_spec(op == Operator::Multiply, a, b) {
                        Some(c) => Ok(c),
                        None => Err("Dimension exponent limit exceeded"@),
                    }
                },
            },
        },
    }
}

/// The dimension of a formula follows the algebra of units: a product has
/// the sum of its operands' exponents, a quotient their difference, a sum
/// or difference needs operands of one dimension and keeps it, and a sign
/// changes nothing; so two parameters of units `u` and `v` multiply and
/// divide as their units do.
pub proof fn lemma_dimension_algebra(l: Tree, r: Tree, units: Seq<(Seq<char>, SIUnit)>)
    requires
        tree_dimension(l, units) is Ok,
        tree_dimension(r, units) is Ok,
    ensures
        ({
            let a = tree_dimension(l, units)->Ok_0;
            let b = tree_dimension(r, units)->Ok_0;
            let p = dim_add(a, b);
            let q = dim_sub(a, b);
            &&& (in_i16(p.0) && in_i16(p.1) && in_i16(p.2) && in_i16(p.3)) ==> tree_dimension(
                Tree::Binary(Operator::Multiply, Box::new(l), Box::new(r)),
                units,
            ) == Ok::<(int, int, int, int), Seq<char>>(p)
            &&& (in_i16(q.0) && in_i16(q.1) && in_i16(q.2) && in_i16(q.3)) ==> tree_dimension(
                Tree::Binary(Operator::Divide, Box::new(l), Box::new(r)),
                units,
            ) == Ok::<(int, int, int, int), Seq<char>>(q)
            &&& tree_dimension(Tree::Binary(Operator::Add, Box::new(l), Box::new(r)), units) is Ok <==> a == b
            &&& tree_dimension(Tree::Binary(Operator::Subtract, Box::new(l), Box::new(r)), units) matches Ok(d) ==> d == a
                && a == b
            &&& tree_dimension(Tree::Unary(true, Box::new(l)), units) == Ok::<(int, int, int, int), Seq<char>>(a)
        }),
{
}

/// A parameter named in a formula has the dimension of its declared unit.
pub proof fn lemma_name_dimension(n: Seq<char>, u: SIUnit, units: Seq<(Seq<char>, SIUnit)>)
    requires
        n != "pi"@,
        lookup_unit(units, n) == Some(u),
    ensures
        tree_dimension(Tree::Name(n), units) == Ok::<(int, int, int, int), Seq<char>>(unit_dimension(u)),
{
}

/// The literal of a tree that is a literal under any number of signs.
pub open spec fn whole_literal(t: Tree) -> Option<Seq<char>>
    decreases t,
{
    match t {
        Tree::Literal(x) => Some(x),
        Tree::Unary(_, o) => whole_literal(*o),
        _ => None,
    }
}

pub open spec fn mismatch_message(expected: SIUnit, actual: (int, int, int, int)) -> Seq<char> {
    "Expected "@ + unit_name(expected) + ", got "@ + describe_spec(actual)
}

/// Unit checking of a formula against its declared unit. A whole literal
/// takes the declared unit when it has none of its own.
pub open spec fn validate_units_spec(t: Tree, units: Seq<(Seq<char>, SIUnit)>, expected: SIUnit) -> Result<
    (),
    Seq<char>,
> {
    match whole_literal(t) {
        Some(x) => match literal_spec(x) {
            Err(m) => Err(m),
            Ok((_, u)) => {
                let actual = unit_dimension(
                    match u {
                        Some(v) => v,
                        None => expected,
                    },
                );
                if actual != unit_dimension(expected) {
                    Err(mismatch_message(expected, actual))
                } else {
                    Ok(())
                }
            },
        },
        None => match tree_dimension(t, units) {
            Err(m) => Err(m),
            Ok(d) => if d != unit_dimension(expected) {
                Err(mismatch_message(expected, d))
            } else {
                Ok(())
            },
        },
    }
}

/// A formula that is not a bare literal passes unit checking exactly when
/// its dimension is that of the declared unit.
pub proof fn lemma_units_checked_by_dimension(t: Tree, units: Seq<(Seq<char>, SIUnit)>, expected: SIUnit)
    requires
        whole_literal(t) is None,
    ensures
        validate_units_spec(t, units, expected) is Ok <==> tree_dimension(t, units) == Ok::<
            (int, int, int, int),
            Seq<char>,
        >(unit_dimension(expected)),
{
}

fn literal_dimension_exec(x: &String) -> (r: Result<Dimension, String>)
    ensures
        match (r, literal_dimension(x@)) {
            (Ok(d), Ok(e)) => d.view() == e,
            (Err(m), Err(e)) => m@ == e,
            _ => false,
        },
{
    match check_literal(x.as_str()) {
        Err(m) => Err(m),
        Ok((_, u)) => Ok(
            dimension(
                match u {
                    Some(v) => v,
                    None => SIUnit::Ratio,
                },
            ),
        ),
    }
}

fn combine(multiply: bool, a: Dimension, b: Dimension) -> (r: Option<Dimension>)
    ensures
        match (r, combine_spec(multiply, a.view(), b.view())) {
            (Some(d), Some(e)) => d.view() == e,
            (None, None) => true,
            _ => false,
        },
{
    let (v, x, s, g) = if multiply {
        (
            a.volt as i32 + b.volt as i32,
            a.ampere as i32 + b.ampere as i32,
            a.second as i32 + b.second as i32,
            a.angle as i32 + b.angle as i32,
        )
    } else {
        (
            a.volt as i32 - b.volt as i32,
            a.ampere as i32 - b.ampere as i32,
            a.second as i32 - b.second as i32,
            a.angle as i32 - b.angle as i32,
        )
    };
    let lo = i16::MIN as i32;
    let hi = i16::MAX as i32;
    if lo <= v && v <= hi && lo <= x && x <= hi && lo <= s && s <= hi && lo <= g && g <= hi {
        Some(Dimension { volt: v as i16, ampere: x as i16, second: s as i16, angle: g as i16 })
    } else {
        None
    }
}

fn quoted_name_message(prefix: &str, name: &String, suffix: &str) -> (m: String)
    ensures
        m@ == prefix@ + name@ + suffix@,
{
    let mut m = owned(prefix);
    append_str(&mut m, name.as_str());
    append_str(&mut m, suffix);
    m
}

fn node_dimension(node: &Node, units: &Vec<(String, SIUnit)>) -> (r: Result<Dimension, String>)
    ensures
        match (r, tree_dimension(node.tree(), unit_views(units@))) {
            (Ok(d), Ok(e)) => d.view() == e,
            (Err(m), Err(e)) => m@ == e,
            _ => false,
        },
    decreases node,
{
    match node {
        Node::Literal(x) => literal_dimension_exec(x),
        Node::Name(n) => if is_pi(n) {
            Ok(dimension(SIUnit::Ratio))
        } else {
            match find_unit(units, n) {
                Some(u) => Ok(dimension(u)),
                None => Err(quoted_name_message("Unknown parameter '", n, "'")),
            }
        },
        Node::Unary { operand, .. } => node_dimension(operand, units),
        Node::Binary { operator, left, right } => {
            let a = node_dimension(left, units)?;
            let b = node_dimension(right, units)?;
            if *operator == Operator::Add || *operator == Operator::Subtract {
                if a != b {
                    Err(owned("Cannot add/subtract incompatible dimensions"))
                } else {
                    Ok(a)
                }
            } else {
                match combine(*operator == Operator::Multiply, a, b) {
                    Some(c) => Ok(c),
                    None => Err(owned("Dimension exponent limit exceeded")),
                }
            }
        },
    }
}

fn literal_of(node: &Node) -> (r: Option<&String>)
    ensures
        match (r, whole_literal(node.tree())) {
            (Some(x), Some(y)) => x@ == y,
            (None, None) => true,
            _ => false,
        },
    decreases node,
{
    match node {
        Node::Literal(x) => Some(x),
        Node::Unary { operand, .. } => literal_of(operand),
        _ => None,
    }
}

fn mismatch(expected: SIUnit, actual: Dimension) -> (e: ExpressionError)
    ensures
        e.message@ == mismatch_message(expected, actual.view()),
        e.offset == 0,
{
    let mut m = owned("Expected ");
    append_str(&mut m, unit_name_exec(expected));
    append_str(&mut m, ", got ");
    append_str(&mut m, describe(actual).as_str());
    ExpressionError { message: m, offset: 0 }
}

impl Expression {
    /// Checks the formula's dimension against its declared unit, resolving
    /// names through `units`; errors carry offset 0.
    pub fn validate_units(&self, units: &Vec<(String, SIUnit)>, expected: SIUnit) -> (r: Result<
        (),
        ExpressionError,
    >)
        ensures
            match validate_units_spec(self.tree(), unit_views(units@), expected) {
                Ok(()) => r is Ok,
                Err(m) => r matches Err(e) && e.message@ == m && e.offset == 0,
            },
    {
        match literal_of(&self.root) {
            Some(x) => match check_literal(x.as_str()) {
                Err(m) => Err(ExpressionError { message: m, offset: 0 }),
                Ok((_, u)) => {
                    let actual = dimension(
                        match u {
                            Some(v) => v,
                            None => expected,
                        },
                    );
                    if actual != dimension(expected) {
                        Err(mismatch(expected, actual))
                    } else {
                        Ok(())
                    }
                },
            },
            None => match node_dimension(&self.root, units) {
                Err(m) => Err(ExpressionError { message: m, offset: 0 }),
                Ok(d) => if d != dimension(expected) {
                    Err(mismatch(expected, d))
                } else {
                    Ok(())
                },
            },
        }
    }
}

} // verus!



//! The parser: recursive descent over the token stream with one token of
//! lookahead, building expression trees with the usual precedence.
use vstd::prelude::*;
use crate::numeral::{i32_of, parse_i32};
use crate::tokenizer::{Token, TokenView, Tokenizer};

verus! {

/// Why a parse failed.
#[derive(Debug, Clone, Copy, PartialEq, Eq, Structural)]
pub enum ParseError {
    /// A grammar position that no rule matches.
    Malformed,
    /// A number whose digits do not fit in a signed 32-bit integer.
    LiteralOverflow,
}

/// A node of an expression tree.
#[derive(Debug, PartialEq)]
pub enum ASTNode {
    /// An operator label with its operands in order; every binary
    /// operation that the parser builds has this shape.
    AST { token: Token, children: Vec<ASTNode> },
    /// The operator slot of a unary operation.
    Operator(Token),
    /// An explicit binary shape; the parser never builds it.
    BinaryOperation { left: Box<ASTNode>, op: Box<ASTNode>, right: Box<ASTNode> },
    /// A prefix sign applied to an operand.
    UnaryOperation { op: Box<ASTNode>, expression: Box<ASTNode> },
    /// A number with its digits as written and their value.
    NumberLiteral { raw: String, parsed: i32 },
}

/// An expression tree with its tokens and text seen as mathematical values.
pub enum NodeView {
    Ast { token: TokenView, children: Seq<NodeView> },
    Operator(TokenView),
    BinaryOperation { left: Box<NodeView>, op: Box<NodeView>, right: Box<NodeView> },
    UnaryOperation { op: Box<NodeView>, expression: Box<NodeView> },
    NumberLiteral { raw: Seq<char>, parsed: i32 },
}

impl View for ASTNode {
    type V = NodeView;

    open spec fn view(&self) -> NodeView
        decreases self,
    {
        match self {
            ASTNode::AST { token, children } => NodeView::Ast {
                token: token@,
                children: Seq::new(
                    children@.len(),
                    |i: int|
                        if 0 <= i < children@.len() {
                            children@[i].view()
                        } else {
                            NodeView::Operator(TokenView::Mut)
                        },
                ),
            },
            ASTNode::Operator(t) => NodeView::Operator(t@),
            ASTNode::BinaryOperation { left, op, right } => NodeView::BinaryOperation {
                left: Box::new((**left).view()),
                op: Box::new((**op).view()),
                right: Box::new((**right).view()),
            },
            ASTNode::UnaryOperation { op, expression } => NodeView::UnaryOperation {
                op: Box::new((**op).view()),
                expression: Box::new((**expression).view()),
            },
            ASTNode::NumberLiteral { raw, parsed } => NodeView::NumberLiteral {
                raw: raw@,
                parsed: *parsed,
            },
        }
    }
}

/// A binary operation as the parser builds it: the operator and its two
/// operands in order.
pub open spec fn binary(op: TokenView, left: NodeView, right: NodeView) -> NodeView {
    NodeView::Ast { token: op, children: seq![left, right] }
}

/// A unary operation on `operand` with the sign `op`.
pub open spec fn unary(op: TokenView, operand: NodeView) -> NodeView {
    NodeView::UnaryOperation {
        op: Box::new(NodeView::Operator(op)),
        expression: Box::new(operand),
    }
}

/// Whether two tokens are of the same kind, payloads aside.
pub open spec fn same_kind(a: TokenView, b: TokenView) -> bool {
    match (a, b) {
        (TokenView::Mut, TokenView::Mut) => true,
        (TokenView::TypeSpecifier(_), TokenView::TypeSpecifier(_)) => true,
        (TokenView::NumberLiteral(_), TokenView::NumberLiteral(_)) => true,
        (TokenView::Equals, TokenView::Equals) => true,
        (TokenView::Semicolon, TokenView::Semicolon) => true,
        (TokenView::Symbol(_), TokenView::Symbol(_)) => true,
        (TokenView::LParen, TokenView::LParen) => true,
        (TokenView::RParen, TokenView::RParen) => true,
        (TokenView::Minus, TokenView::Minus) => true,
        (TokenView::Plus, TokenView::Plus) => true,
        (TokenView::Star, TokenView::Star) => true,
        (TokenView::FSlash, TokenView::FSlash) => true,
        _ => false,
    }
}

/// The tokens left once an expected token of `kind`'s kind is taken from the
/// front of `ts`; when the front token is of another kind, or there is none,
/// nothing is taken.
pub open spec fn expect(ts: Seq<TokenView>, kind: TokenView) -> Seq<TokenView> {
    if ts.len() > 0 && same_kind(ts[0], kind) {
        ts.drop_first()
    } else {
        ts
    }
}

/// The result of parsing a prefix of some tokens: a tree and the tokens that
/// follow it, or an error.
///
/// Every rule that succeeds consumes at least one token. The rules below
/// that read one rule after another test this before they go on, which
/// makes their recursion's end evident; the other branch is never taken
/// (`lemma_expression_sound` proves the first point).
pub type Parsed = Result<(NodeView, Seq<TokenView>), ParseError>;

/// `factor := ('+' | '-') factor | NUMBER | '(' expression ')'`
pub open spec fn factor_of(ts: Seq<TokenView>) -> Parsed
    decreases ts.len(), 0nat,
{
    if ts.len() == 0 {
        Err(ParseError::Malformed)
    } else {
        match ts[0] {
            TokenView::Plus => match factor_of(ts.drop_first()) {
                Ok((e, rest)) => Ok((unary(TokenView::Plus, e), rest)),
                Err(x) => Err(x),
            },
            TokenView::Minus => match factor_of(ts.drop_first()) {
                Ok((e, rest)) => Ok((unary(TokenView::Minus, e), rest)),
                Err(x) => Err(x),
            },
            TokenView::NumberLiteral(raw) => match i32_of(raw) {
                Some(v) => Ok((NodeView::NumberLiteral { raw, parsed: v }, ts.drop_first())),
                None => Err(ParseError::LiteralOverflow),
            },
            TokenView::LParen => match expression_of(ts.drop_first()) {
                Ok((e, rest)) => Ok((e, expect(rest, TokenView::RParen))),
                Err(x) => Err(x),
            },
            _ => Err(ParseError::Malformed),
        }
    }
}

/// Whether a factor can begin with `t`: a sign, a number or `(`.
pub open spec fn starts_factor(t: TokenView) -> bool {
    t is Plus || t is Minus || t is NumberLiteral || t is LParen
}

/// Whether `t` is `*` or `/`.
pub open spec fn is_mul_op(t: TokenView) -> bool {
    t is Star || t is FSlash
}

/// Whether `t` is `+` or `-`.
pub open spec fn is_add_op(t: TokenView) -> bool {
    t is Plus || t is Minus
}

/// `term := factor (('*' | '/') factor)*`
pub open spec fn term_of(ts: Seq<TokenView>) -> Parsed
    decreases ts.len(), 1nat,
{
    match factor_of(ts) {
        Ok((f, rest)) => if rest.len() < ts.len() {
            term_rest(f, rest)
        } else {
            Err(ParseError::Malformed)
        },
        Err(x) => Err(x),
    }
}

/// The rest of a term once `acc` has been read: each further `*` or `/`
/// and factor folds into the tree from the left.
pub open spec fn term_rest(acc: NodeView, ts: Seq<TokenView>) -> Parsed
    decreases ts.len(), 1nat,
{
    if ts.len() > 0 && is_mul_op(ts[0]) {
        match factor_of(ts.drop_first()) {
            Ok((f, rest)) => if rest.len() < ts.len() {
                term_rest(binary(ts[0], acc, f), rest)
            } else {
                Err(ParseError::Malformed)
            },
            Err(x) => Err(x),
        }
    } else {
        Ok((acc, ts))
    }
}

/// `expression := term (('+' | '-') term)*`
pub open spec fn expression_of(ts: Seq<TokenView>) -> Parsed
    decreases ts.len(), 2nat,
{
    match term_of(ts) {
        Ok((t, rest)) => if rest.len() < ts.len() {
            expression_rest(t, rest)
        } else {
            Err(ParseError::Malformed)
        },
        Err(x) => Err(x),
    }
}

/// The rest of an expression once `acc` has been read: each further `+` or
/// `-` and term folds into the tree from the left.
pub open spec fn expression_rest(acc: NodeView, ts: Seq<TokenView>) -> Parsed
    decreases ts.len(), 2nat,
{
    if ts.len() > 0 && is_add_op(ts[0]) {
        match term_of(ts.drop_first()) {
            Ok((t, rest)) => if rest.len() < ts.len() {
                expression_rest(binary(ts[0], acc, t), rest)
            } else {
                Err(ParseError::Malformed)
            },
            Err(x) => Err(x),
        }
    } else {
        Ok((acc, ts))
    }
}

/// `program := expression*`, read until no token is left; one failed
/// expression fails the whole program.
pub open spec fn program_of(ts: Seq<TokenView>) -> Result<Seq<NodeView>, ParseError>
    decreases ts.len(),
{
    if ts.len() == 0 {
        Ok(Seq::empty())
    } else {
        match expression_of(ts) {
            Ok((e, rest)) => if rest.len() < ts.len() {
                match program_of(rest) {
                    Ok(es) => Ok(seq![e] + es),
                    Err(x) => Err(x),
                }
            } else {
                Err(ParseError::Malformed)
            },
            Err(x) => Err(x),
        }
    }
}

/// The trees of `v`.
pub open spec fn views(v: Seq<ASTNode>) -> Seq<NodeView> {
    v.map_values(|n: ASTNode| n@)
}

/// Every number node in `n` holds the value that reading its own text as
/// an `i32` gives.
pub open spec fn literals_exact(n: NodeView) -> bool
    decreases n,
{
    match n {
        NodeView::Ast { token, children } => forall|i: int|
            0 <= i < children.len() ==> literals_exact(#[trigger] children[i]),
        NodeView::Operator(_) => true,
        NodeView::BinaryOperation { left, op, right } => literals_exact(*left) && literals_exact(
            *op,
        ) && literals_exact(*right),
        NodeView::UnaryOperation { op, expression } => literals_exact(*op) && literals_exact(
            *expression,
        ),
        NodeView::NumberLiteral { raw, parsed } => i32_of(raw) == Some(parsed),
    }
}

/// Joining two trees with exact literals keeps them exact.
proof fn lemma_binary_exact(op: TokenView, left: NodeView, right: NodeView)
    requires
        literals_exact(left),
        literals_exact(right),
    ensures
        literals_exact(binary(op, left, right)),
{
    let c = seq![left, right];
    assert forall|i: int| 0 <= i < c.len() implies literals_exact(#[trigger] c[i]) by {
        if i == 0 {
            assert(c[i] == left);
        } else {
            assert(c[i] == right);
        }
    }
}

/// A sign on a tree with exact literals keeps them exact.
proof fn lemma_unary_exact(op: TokenView, operand: NodeView)
    requires
        literals_exact(operand),
    ensures
        literals_exact(unary(op, operand)),
{
    assert(literals_exact(NodeView::Operator(op)));
}

/// A factor read from `ts` has exact literals and consumes a token.
proof fn lemma_factor_sound(ts: Seq<TokenView>)
    ensures
        factor_of(ts) is Ok ==> literals_exact(factor_of(ts)->Ok_0.0) && factor_of(ts)->Ok_0.1.len()
            < ts.len(),
    decreases ts.len(), 0nat,
{
    if ts.len() > 0 {
        match ts[0] {
            TokenView::Plus => {
                lemma_factor_sound(ts.drop_first());
                if let Ok((e, _)) = factor_of(ts.drop_first()) {
                    lemma_unary_exact(TokenView::Plus, e);
                }
            },
            TokenView::Minus => {
                lemma_factor_sound(ts.drop_first());
                if let Ok((e, _)) = factor_of(ts.drop_first()) {
                    lemma_unary_exact(TokenView::Minus, e);
                }
            },
            TokenView::LParen => {
                lemma_expression_sound(ts.drop_first());
            },
            _ => {},
        }
    }
}

/// Extending a term never adds an inexact literal nor gives tokens back.
proof fn lemma_term_rest_sound(acc: NodeView, ts: Seq<TokenView>)
    requires
        literals_exact(acc),
    ensures
        term_rest(acc, ts) is Ok ==> literals_exact(term_rest(acc, ts)->Ok_0.0) && term_rest(
            acc,
            ts,
        )->Ok_0.1.len() <= ts.len(),
    decreases ts.len(), 1nat,
{
    if ts.len() > 0 && is_mul_op(ts[0]) {
        lemma_factor_sound(ts.drop_first());
        if let Ok((f, rest)) = factor_of(ts.drop_first()) {
            if rest.len() < ts.len() {
                lemma_binary_exact(ts[0], acc, f);
                lemma_term_rest_sound(binary(ts[0], acc, f), rest);
            }
        }
    }
}

/// A term read from `ts` has exact literals and consumes a token.
proof fn lemma_term_sound(ts: Seq<TokenView>)
    ensures
        term_of(ts) is Ok ==> literals_exact(term_of(ts)->Ok_0.0) && term_of(ts)->Ok_0.1.len()
            < ts.len(),
    decreases ts.len(), 1nat,
{
    lemma_factor_sound(ts);
    if let Ok((f, rest)) = factor_of(ts) {
        if rest.len() < ts.len() {
            lemma_term_rest_sound(f, rest);
        }
    }
}

/// Extending an expression never adds an inexact literal nor gives tokens
/// back.
proof fn lemma_expression_rest_sound(acc: NodeView, ts: Seq<TokenView>)
    requires
        literals_exact(acc),
    ensures
        expression_rest(acc, ts) is Ok ==> literals_exact(expression_rest(acc, ts)->Ok_0.0)
            && expression_rest(acc, ts)->Ok_0.1.len() <= ts.len(),
    decreases ts.len(), 2nat,
{
    if ts.len() > 0 && is_add_op(ts[0]) {
        lemma_term_sound(ts.drop_first());
        if let Ok((t, rest)) = term_of(ts.drop_first()) {
            if rest.len() < ts.len() {
                lemma_binary_exact(ts[0], acc, t);
                lemma_expression_rest_sound(binary(ts[0], acc, t), rest);
            }
        }
    }
}

/// An expression read from `ts` has exact literals and consumes a token.
proof fn lemma_expression_sound(ts: Seq<TokenView>)
    ensures
        expression_of(ts) is Ok ==> literals_exact(expression_of(ts)->Ok_0.0)
            && expression_of(ts)->Ok_0.1.len() < ts.len(),
    decreases ts.len(), 2nat,
{
    lemma_term_sound(ts);
    if let Ok((t, rest)) = term_of(ts) {
        if rest.len() < ts.len() {
            lemma_expression_rest_sound(t, rest);
        }
    }
}

/// Every number node of a successfully parsed program round-trips: reading
/// its stored text as an `i32` gives exactly its stored value.
pub proof fn lemma_parsed_literals_round_trip(ts: Seq<TokenView>)
    ensures
        program_of(ts) is Ok ==> forall|i: int|
            0 <= i < program_of(ts)->Ok_0.len() ==> literals_exact(
                #[trigger] program_of(ts)->Ok_0[i],
            ),
    decreases ts.len(),
{
    if ts.len() > 0 {
        lemma_expression_sound(ts);
        if let Ok((e, rest)) = expression_of(ts) {
            if rest.len() < ts.len() {
                lemma_parsed_literals_round_trip(rest);
                if let Ok(es) = program_of(rest) {
                    let all = seq![e] + es;
                    assert forall|i: int| 0 <= i < all.len() implies literals_exact(
                        #[trigger] all[i],
                    ) by {
                        if i > 0 {
                            assert(all[i] == es[i - 1]);
                        }
                    }
                }
            }
        }
    }
}

/// The node for the number token with text `raw`, where it reads as an `i32`.
pub open spec fn number(raw: Seq<char>) -> NodeView {
    NodeView::NumberLiteral { raw, parsed: i32_of(raw)->Some_0 }
}

/// `*` and `/` bind tighter than `+` and `-`: `a o1 b o2 c`, with `o1` an
/// additive and `o2` a multiplicative operator, parses as `a o1 (b o2 c)`,
/// taking every token.
pub proof fn lemma_mul_binds_tighter(
    a: Seq<char>,
    b: Seq<char>,
    c: Seq<char>,
    o1: TokenView,
    o2: TokenView,
)
    requires
        i32_of(a) is Some,
        i32_of(b) is Some,
        i32_of(c) is Some,
        is_add_op(o1),
        is_mul_op(o2),
    ensures
        expression_of(
            seq![
                TokenView::NumberLiteral(a),
                o1,
                TokenView::NumberLiteral(b),
                o2,
                TokenView::NumberLiteral(c),
            ],
        ) == Parsed::Ok((binary(o1, number(a), binary(o2, number(b), number(c))), Seq::empty())),
{
    let ts = seq![
        TokenView::NumberLiteral(a),
        o1,
        TokenView::NumberLiteral(b),
        o2,
        TokenView::NumberLiteral(c),
    ];
    let ts1 = ts.drop_first();
    let ts2 = ts1.drop_first();
    let ts3 = ts2.drop_first();
    let ts4 = ts3.drop_first();
    let ts5 = ts4.drop_first();
    assert(ts1 =~= seq![o1, TokenView::NumberLiteral(b), o2, TokenView::NumberLiteral(c)]);
    assert(ts2 =~= seq![TokenView::NumberLiteral(b), o2, TokenView::NumberLiteral(c)]);
    assert(ts3 =~= seq![o2, TokenView::NumberLiteral(c)]);
    assert(ts4 =~= seq![TokenView::NumberLiteral(c)]);
    assert(ts5 =~= Seq::<TokenView>::empty());
    let bc = binary(o2, number(b), number(c));
    assert(factor_of(ts4) == Parsed::Ok((number(c), ts5)));
    assert(term_rest(bc, ts5) == Parsed::Ok((bc, ts5)));
    assert(term_rest(number(b), ts3) == Parsed::Ok((bc, ts5)));
    assert(factor_of(ts2) == Parsed::Ok((number(b), ts3)));
    assert(term_of(ts2) == Parsed::Ok((bc, ts5)));
    let abc = binary(o1, number(a), bc);
    assert(expression_rest(abc, ts5) == Parsed::Ok((abc, ts5)));
    assert(expression_rest(number(a), ts1) == Parsed::Ok((abc, ts5)));
    assert(factor_of(ts) == Parsed::Ok((number(a), ts1)));
    assert(term_rest(number(a), ts1) == Parsed::Ok((number(a), ts1)));
    assert(term_of(ts) == Parsed::Ok((number(a), ts1)));
}

/// `+` and `-` group from the left: `a o1 b o2 c`, with both operators
/// additive, parses as `(a o1 b) o2 c`, taking every token.
pub proof fn lemma_add_groups_left(
    a: Seq<char>,
    b: Seq<char>,
    c: Seq<char>,
    o1: TokenView,
    o2: TokenView,
)
    requires
        i32_of(a) is Some,
        i32_of(b) is Some,
        i32_of(c) is Some,
        is_add_op(o1),
        is_add_op(o2),
    ensures
        expression_of(
            seq![
                TokenView::NumberLiteral(a),
                o1,
                TokenView::NumberLiteral(b),
                o2,
                TokenView::NumberLiteral(c),
            ],
        ) == Parsed::Ok((binary(o2, binary(o1, number(a), number(b)), number(c)), Seq::empty())),
{
    let ts = seq![
        TokenView::NumberLiteral(a),
        o1,
        TokenView::NumberLiteral(b),
        o2,
        TokenView::NumberLiteral(c),
    ];
    let ts1 = ts.drop_first();
    let ts2 = ts1.drop_first();
    let ts3 = ts2.drop_first();
    let ts4 = ts3.drop_first();
    let ts5 = ts4.drop_first();
    assert(ts1 =~= seq![o1, TokenView::NumberLiteral(b), o2, TokenView::NumberLiteral(c)]);
    assert(ts2 =~= seq![TokenView::NumberLiteral(b), o2, TokenView::NumberLiteral(c)]);
    assert(ts3 =~= seq![o2, TokenView::NumberLiteral(c)]);
    assert(ts4 =~= seq![TokenView::NumberLiteral(c)]);
    assert(ts5 =~= Seq::<TokenView>::empty());
    let ab = binary(o1, number(a), number(b));
    let abc = binary(o2, ab, number(c));
    assert(factor_of(ts4) == Parsed::Ok((number(c), ts5)));
    assert(term_rest(number(c), ts5) == Parsed::Ok((number(c), ts5)));
    assert(term_of(ts4) == Parsed::Ok((number(c), ts5)));
    assert(expression_rest(abc, ts5) == Parsed::Ok((abc, ts5)));
    assert(expression_rest(ab, ts3) == Parsed::Ok((abc, ts5)));
    assert(factor_of(ts2) == Parsed::Ok((number(b), ts3)));
    assert(term_rest(number(b), ts3) == Parsed::Ok((number(b), ts3)));
    assert(term_of(ts2) == Parsed::Ok((number(b), ts3)));
    assert(expression_rest(number(a), ts1) == Parsed::Ok((abc, ts5)));
    assert(factor_of(ts) == Parsed::Ok((number(a), ts1)));
    assert(term_rest(number(a), ts1) == Parsed::Ok((number(a), ts1)));
    assert(term_of(ts) == Parsed::Ok((number(a), ts1)));
}

/// `e` under the signs `signs`, the first sign outermost.
pub open spec fn under_signs(signs: Seq<TokenView>, e: NodeView) -> NodeView
    decreases signs.len(),
{
    if signs.len() == 0 {
        e
    } else {
        unary(signs[0], under_signs(signs.drop_first(), e))
    }
}

/// Signs in front of a factor nest in token order: each wraps what follows
/// it in a unary node, and the factor's failure is the whole result's.
pub proof fn lemma_signs_nest(signs: Seq<TokenView>, ts: Seq<TokenView>)
    requires
        forall|i: int| 0 <= i < signs.len() ==> is_add_op(#[trigger] signs[i]),
    ensures
        factor_of(signs + ts) == match factor_of(ts) {
            Ok((e, rest)) => Parsed::Ok((under_signs(signs, e), rest)),
            Err(x) => Parsed::Err(x),
        },
    decreases signs.len(),
{
    if signs.len() == 0 {
        assert(signs + ts =~= ts);
    } else {
        let tail = signs.drop_first();
        assert forall|i: int| 0 <= i < tail.len() implies is_add_op(#[trigger] tail[i]) by {
            assert(tail[i] == signs[i + 1]);
        }
        lemma_signs_nest(tail, ts);
        assert((signs + ts).drop_first() =~= tail + ts);
        assert((signs + ts)[0] == signs[0]);
    }
}

/// An empty token sequence parses to an empty program, without error.
pub proof fn lemma_empty_program()
    ensures
        program_of(Seq::empty()) == Ok::<Seq<NodeView>, ParseError>(Seq::empty()),
{
}

/// Parsing is deterministic: the same tokens give the same result, trees or
/// error alike.
pub proof fn lemma_parse_deterministic(a: Seq<TokenView>, b: Seq<TokenView>)
    requires
        a == b,
    ensures
        program_of(a) == program_of(b),
{
}

/// Whether two tokens are of the same kind, payloads aside.
fn kind_matches(a: &Token, b: &Token) -> (r: bool)
    ensures
        r == same_kind(a@, b@),
{
    match (a, b) {
        (Token::Mut, Token::Mut) => true,
        (Token::TypeSpecifier(_), Token::TypeSpecifier(_)) => true,
        (Token::NumberLiteral(_), Token::NumberLiteral(_)) => true,
        (Token::Equals, Token::Equals) => true,
        (Token::Semicolon, Token::Semicolon) => true,
        (Token::Symbol(_), Token::Symbol(_)) => true,
        (Token::LParen, Token::LParen) => true,
        (Token::RParen, Token::RParen) => true,
        (Token::Minus, Token::Minus) => true,
        (Token::Plus, Token::Plus) => true,
        (Token::Star, Token::Star) => true,
        (Token::FSlash, Token::FSlash) => true,
        _ => false,
    }
}

/// The node for the binary operation `op` on `left` and `right`.
fn join(op: Token, left: ASTNode, right: ASTNode) -> (r: ASTNode)
    ensures
        r@ == binary(op@, left@, right@),
{
    let ghost (l, rt) = (left@, right@);
    let r = ASTNode::AST { token: op, children: vec![left, right] };
    assert(r@->Ast_children =~= seq![l, rt]);
    r
}

/// The node for the sign `op` applied to `operand`.
fn prefix(op: Token, operand: ASTNode) -> (r: ASTNode)
    ensures
        r@ == unary(op@, operand@),
{
    let sign = ASTNode::Operator(op);
    assert(sign@ == NodeView::Operator(op@));
    ASTNode::UnaryOperation { op: Box::new(sign), expression: Box::new(operand) }
}

/// A recursive-descent parser over the tokens of a tokenizer, holding the
/// next token as its lookahead.
#[derive(Debug)]
pub struct ASTParser {
    tokenizer: Tokenizer,
    lookahead: Option<Token>,
}

impl View for ASTParser {
    type V = Seq<TokenView>;

    /// The tokens not yet consumed, the lookahead first.
    closed spec fn view(&self) -> Seq<TokenView> {
        match self.lookahead {
            Some(t) => seq![t@] + self.tokenizer@,
            None => Seq::empty(),
        }
    }
}

impl ASTParser {
    /// The tokenizer is well formed, and the lookahead is empty only once
    /// the tokenizer is spent.
    pub closed spec fn wf(&self) -> bool {
        &&& self.tokenizer.wf()
        &&& (self.lookahead is None ==> self.tokenizer@.len() == 0)
    }

    /// A parser over the tokens that `tokenizer` has still to give.
    pub fn new(tokenizer: Tokenizer) -> (r: ASTParser)
        requires
            tokenizer.wf(),
        ensures
            r.wf(),
            r@ == tokenizer@,
    {
        let mut tokenizer = tokenizer;
        let ghost before = tokenizer@;
        let lookahead = tokenizer.next();
        let r = ASTParser { tokenizer, lookahead };
        assert(r@ =~= before);
        r
    }

    /// Takes the lookahead token when it is of `token`'s kind; otherwise, or
    /// when no token is left, does nothing.
    fn consume(&mut self, token: Token)
        requires
            old(self).wf(),
        ensures
            final(self).wf(),
            final(self)@ == expect(old(self)@, token@),
    {
        let take = match &self.lookahead {
            Some(t) => kind_matches(t, &token),
            None => false,
        };
        if take {
            self.lookahead = self.tokenizer.next();
            assert(self@ =~= old(self)@.drop_first());
        }
    }

    /// Parses a factor.
    fn factor(&mut self) -> (r: Result<ASTNode, ParseError>)
        requires
            old(self).wf(),
        ensures
            final(self).wf(),
            match r {
                Ok(n) => factor_of(old(self)@) == Parsed::Ok((n@, final(self)@))
                    && final(self)@.len() < old(self)@.len(),
                Err(e) => factor_of(old(self)@) == Parsed::Err(e),
            },
            old(self)@.len() == 0 || !starts_factor(old(self)@[0]) ==> r is Err && final(self)@
                == old(self)@,
        decreases old(self)@.len(), 0nat,
    {
        let ghost ts = self@;
        match &self.lookahead {
            Some(Token::Plus) => {
                assert(ts[0] == TokenView::Plus);
                self.consume(Token::Plus);
                assert(self@ == ts.drop_first());
                match self.factor() {
                    Ok(e) => Ok(prefix(Token::Plus, e)),
                    Err(x) => Err(x),
                }
            },
            Some(Token::Minus) => {
                assert(ts[0] == TokenView::Minus);
                self.consume(Token::Minus);
                assert(self@ == ts.drop_first());
                match self.factor() {
                    Ok(e) => Ok(prefix(Token::Minus, e)),
                    Err(x) => Err(x),
                }
            },
            Some(Token::NumberLiteral(value)) => {
                let raw: String = value.clone();
                assert(ts[0] == TokenView::NumberLiteral(raw@));
                self.consume(Token::NumberLiteral(String::new()));
                assert(self@ == ts.drop_first());
                match parse_i32(raw.as_str()) {
                    Some(parsed) => Ok(ASTNode::NumberLiteral { raw, parsed }),
                    None => Err(ParseError::LiteralOverflow),
                }
            },
            Some(Token::LParen) => {
                assert(ts[0] == TokenView::LParen);
                self.consume(Token::LParen);
                assert(self@ == ts.drop_first());
                let expr = self.expression();
                let ghost mid = self@;
                self.consume(Token::RParen);
                assert(self@.len() <= mid.len());
                expr
            },
            _ => Err(ParseError::Malformed),
        }
    }

    /// Parses a term: factors joined by `*` and `/`, grouped from the left.
    fn term(&mut self) -> (r: Result<ASTNode, ParseError>)
        requires
            old(self).wf(),
        ensures
            final(self).wf(),
            match r {
                Ok(n) => term_of(old(self)@) == Parsed::Ok((n@, final(self)@))
                    && final(self)@.len() < old(self)@.len(),
                Err(e) => term_of(old(self)@) == Parsed::Err(e),
            },
        decreases old(self)@.len(), 1nat,
    {
        let mut node = match self.factor() {
            Ok(n) => n,
            Err(x) => {
                return Err(x);
            },
        };
        loop
            invariant
                self.wf(),
                self@.len() < old(self)@.len(),
                term_of(old(self)@) == term_rest(node@, self@),
            ensures
                self.wf(),
                self@.len() < old(self)@.len(),
                term_of(old(self)@) == Parsed::Ok((node@, self@)),
            decreases self@.len(),
        {
            let is_star = match &self.lookahead {
                Some(Token::Star) => true,
                Some(Token::FSlash) => false,
                _ => {
                    break;
                },
            };
            if is_star {
                self.consume(Token::Star);
            } else {
                self.consume(Token::FSlash);
            }
            let rhs = match self.factor() {
                Ok(n) => n,
                Err(x) => {
                    return Err(x);
                },
            };
            let op = if is_star {
                Token::Star
            } else {
                Token::FSlash
            };
            node = join(op, node, rhs);
        }
        Ok(node)
    }

    /// Parses an expression: terms joined by `+` and `-`, grouped from the
    /// left.
    fn expression(&mut self) -> (r: Result<ASTNode, ParseError>)
        requires
            old(self).wf(),
        ensures
            final(self).wf(),
            match r {
                Ok(n) => expression_of(old(self)@) == Parsed::Ok((n@, final(self)@))
                    && final(self)@.len() < old(self)@.len(),
                Err(e) => expression_of(old(self)@) == Parsed::Err(e),
            },
        decreases old(self)@.len(), 2nat,
    {
        let mut node = match self.term() {
            Ok(n) => n,
            Err(x) => {
                return Err(x);
            },
        };
        loop
            invariant
                self.wf(),
                self@.len() < old(self)@.len(),
                expression_of(old(self)@) == expression_rest(node@, self@),
            ensures
                self.wf(),
                self@.len() < old(self)@.len(),
                expression_of(old(self)@) == Parsed::Ok((node@, self@)),
            decreases self@.len(),
        {
            let is_plus = match &self.lookahead {
                Some(Token::Plus) => true,
                Some(Token::Minus) => false,
                _ => {
                    break;
                },
            };
            if is_plus {
                self.consume(Token::Plus);
            } else {
                self.consume(Token::Minus);
            }
            let rhs = match self.term() {
                Ok(n) => n,
                Err(x) => {
                    return Err(x);
                },
            };
            let op = if is_plus {
                Token::Plus
            } else {
                Token::Minus
            };
            node = join(op, node, rhs);
        }
        Ok(node)
    }

    /// Parses every expression until the tokens run out: the trees in
    /// order, or the first error met, which fails the whole program.
    pub fn parse(&mut self) -> (r: Result<Vec<ASTNode>, ParseError>)
        requires
            old(self).wf(),
        ensures
            final(self).wf(),
            match r {
                Ok(v) => program_of(old(self)@) == Ok::<Seq<NodeView>, ParseError>(views(v@))
                    && final(self)@.len() == 0,
                Err(e) => program_of(old(self)@) == Err::<Seq<NodeView>, ParseError>(e),
            },
    {
        let mut program: Vec<ASTNode> = Vec::new();
        while self.lookahead.is_some()
            invariant
                self.wf(),
                program_of(old(self)@) == match program_of(self@) {
                    Ok(es) => Ok(views(program@) + es),
                    Err(x) => Err(x),
                },
            decreases self@.len(),
        {
            let ghost before = program@;
            let ghost ts = self@;
            match self.expression() {
                Ok(e) => {
                    let ghost ev = e@;
                    program.push(e);
                    assert(views(program@) =~= views(before) + seq![ev]);
                    proof {
                        assert(ts.len() > 0);
                        if let Ok(es) = program_of(self@) {
                            assert(program_of(ts) == Ok::<Seq<NodeView>, ParseError>(
                                seq![ev] + es,
                            ));
                            assert(views(before) + (seq![ev] + es) =~= views(program@) + es);
                        }
                    }
                },
                Err(x) => {
                    return Err(x);
                },
            }
        }
        assert(views(program@) + Seq::<NodeView>::empty() =~= views(program@));
        Ok(program)
    }
}

} // verus!

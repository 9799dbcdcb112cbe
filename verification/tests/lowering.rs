//! What programs lower to, and what the passes over the IR make of it.
//!
//! A program is written as source text. Reading a tree out of the tokens and
//! giving every node its type is done here, for programs known to be right: no
//! mistake in one is looked for.

use std::collections::HashMap;

use tinyc::ast::{
    ArmBody, ArrayId, ArrayInfo, BinOp, ClassDecl, ClassId, ClassInfo, CmpOp, EnumId, EnumInfo,
    Expr, ExprKind, FieldInfo, FieldInit, FnDecl, Layout, ListId, LogicOp, MatchArm, MethodInfo,
    NodeId, Param, Pattern, Place, Prim, PrintPart, Stmt, Ty, TypeTable, VariantInfo,
};
use tinyc::diag::{Diagnostic, Span};
use tinyc::ir::lower::owned::mentions;
use tinyc::ir::ssa::{construct, destruct, sequence, Dominators, Names};
use tinyc::ir::{
    fold_bin, liveness, lower, negate_const, Block, BlockId, BlockKind, FuncId, Function, Instr, Num,
    Program, Runtime, Target, Terminator, VReg, Value, MAX_FRAME_BYTES,
};
use tinyc::lexer::lex;
use tinyc::opt::optimise;
use tinyc::sema::Types;
use tinyc::token::{Token, TokenKind};

// -- reading a tree ----------------------------------------------------------

/// A type as it is written.
#[derive(Clone, Debug)]
enum Written {
    Prim(Prim),
    Named(String),
    Array(Box<Written>, u32),
    List(Box<Written>),
}

#[derive(Default)]
struct WrittenClass {
    name: String,
    parent: Option<String>,
    fields: Vec<(Written, String)>,
    methods: Vec<usize>,
}

struct Signature {
    owner: Option<String>,
    params: Vec<Option<Written>>,
    ret: Option<Written>,
}

struct Reader {
    tokens: Vec<Token>,
    at: usize,
    nodes: u32,
    /// The type a declaration, a variant or an object was written with.
    written: HashMap<u32, Written>,
    functions: Vec<FnDecl>,
    signatures: Vec<Signature>,
    classes: Vec<WrittenClass>,
    enums: Vec<(String, Vec<(String, Vec<Written>)>)>,
}

impl Reader {
    fn read(src: &str) -> Reader {
        let mut reader = Reader {
            tokens: lex(src).unwrap(),
            at: 0,
            nodes: 0,
            written: HashMap::new(),
            functions: Vec::new(),
            signatures: Vec::new(),
            classes: Vec::new(),
            enums: Vec::new(),
        };
        while *reader.kind() != TokenKind::Eof {
            reader.item();
        }
        reader
    }

    fn kind(&self) -> &TokenKind {
        &self.tokens[self.at].kind
    }

    fn ahead(&self, by: usize) -> &TokenKind {
        &self.tokens[(self.at + by).min(self.tokens.len() - 1)].kind
    }

    fn eat(&mut self, kind: TokenKind) -> bool {
        let eaten = *self.kind() == kind;
        if eaten {
            self.at += 1;
        }
        eaten
    }

    fn expect(&mut self, kind: TokenKind) {
        assert!(self.eat(kind), "unexpected {:?}", self.tokens[self.at]);
    }

    fn ident(&mut self) -> String {
        let TokenKind::Ident(name) = self.kind() else {
            panic!("a name was expected, not {:?}", self.tokens[self.at])
        };
        let name = name.clone();
        self.at += 1;
        name
    }

    fn node(&mut self) -> NodeId {
        self.nodes += 1;
        NodeId(self.nodes - 1)
    }

    fn item(&mut self) {
        match self.kind() {
            TokenKind::KwEnum => {
                self.at += 1;
                let name = self.ident();
                self.expect(TokenKind::LBrace);
                let mut variants = Vec::new();
                while !self.eat(TokenKind::RBrace) {
                    let variant = self.ident();
                    let mut payload = Vec::new();
                    if self.eat(TokenKind::LParen) {
                        while !self.eat(TokenKind::RParen) {
                            payload.push(self.ty());
                            self.eat(TokenKind::Comma);
                        }
                    }
                    variants.push((variant, payload));
                    self.eat(TokenKind::Comma);
                }
                self.enums.push((name, variants));
            }
            TokenKind::KwClass => {
                self.at += 1;
                let mut class = WrittenClass { name: self.ident(), ..WrittenClass::default() };
                if self.eat(TokenKind::Colon) {
                    class.parent = Some(self.ident());
                }
                self.expect(TokenKind::LBrace);
                while !self.eat(TokenKind::RBrace) {
                    if *self.kind() == TokenKind::KwFn {
                        class.methods.push(self.functions.len());
                        self.function(Some(class.name.clone()));
                    } else {
                        let ty = self.ty();
                        class.fields.push((ty, self.ident()));
                        self.expect(TokenKind::Semi);
                    }
                }
                self.classes.push(class);
            }
            _ => self.function(None),
        }
    }

    fn function(&mut self, owner: Option<String>) {
        self.expect(TokenKind::KwFn);
        let name_span = self.tokens[self.at].span;
        let name = self.ident();
        self.expect(TokenKind::LParen);
        let mut params = Vec::new();
        let mut types = Vec::new();
        while !self.eat(TokenKind::RParen) {
            if matches!(self.kind(), TokenKind::Ident(name) if name == "self") {
                types.push(None);
            } else {
                types.push(Some(self.ty()));
            }
            params.push(Param { name: self.ident() });
            self.eat(TokenKind::Comma);
        }
        let ret = if self.eat(TokenKind::Arrow) { Some(self.ty()) } else { None };
        let body = self.block();
        self.functions.push(FnDecl { name, name_span, params, body });
        self.signatures.push(Signature { owner, params: types, ret });
    }

    fn ty(&mut self) -> Written {
        let mut ty = match self.kind() {
            TokenKind::KwInt => Written::Prim(Prim::Int),
            TokenKind::KwFloat => Written::Prim(Prim::Float),
            TokenKind::KwBool => Written::Prim(Prim::Bool),
            TokenKind::KwChar => Written::Prim(Prim::Char),
            TokenKind::KwString => Written::Prim(Prim::Str),
            TokenKind::Ident(name) => Written::Named(name.clone()),
            other => panic!("a type was expected, not {other:?}"),
        };
        self.at += 1;
        while self.eat(TokenKind::LBracket) {
            if let TokenKind::Int(len) = *self.kind() {
                self.at += 1;
                ty = Written::Array(Box::new(ty), len as u32);
            } else {
                ty = Written::List(Box::new(ty));
            }
            self.expect(TokenKind::RBracket);
        }
        ty
    }

    fn block(&mut self) -> tinyc::ast::Block {
        self.expect(TokenKind::LBrace);
        let mut stmts = Vec::new();
        while !self.eat(TokenKind::RBrace) {
            stmts.push(self.stmt());
        }
        tinyc::ast::Block { stmts }
    }

    /// Whether what comes next declares a variable.
    fn declares(&self) -> bool {
        match self.kind() {
            TokenKind::KwInt
            | TokenKind::KwFloat
            | TokenKind::KwBool
            | TokenKind::KwChar
            | TokenKind::KwString => *self.ahead(1) != TokenKind::LParen,
            TokenKind::Ident(_) => match self.ahead(1) {
                TokenKind::Ident(_) => true,
                TokenKind::LBracket => match self.ahead(2) {
                    TokenKind::RBracket => true,
                    TokenKind::Int(_) => matches!(self.ahead(4), TokenKind::Ident(_)),
                    _ => false,
                },
                _ => false,
            },
            _ => false,
        }
    }

    fn stmt(&mut self) -> Stmt {
        match self.kind() {
            TokenKind::KwIf => {
                self.at += 1;
                self.expect(TokenKind::LParen);
                let cond = self.expr();
                self.expect(TokenKind::RParen);
                let then_block = self.block();
                let else_block =
                    if self.eat(TokenKind::KwElse) { Some(self.block()) } else { None };
                Stmt::If { cond, then_block, else_block }
            }
            TokenKind::KwWhile => {
                self.at += 1;
                self.expect(TokenKind::LParen);
                let cond = self.expr();
                self.expect(TokenKind::RParen);
                Stmt::While { cond, body: self.block() }
            }
            TokenKind::KwFor => {
                self.at += 1;
                self.expect(TokenKind::LParen);
                let init = Box::new(self.simple());
                self.expect(TokenKind::Semi);
                let cond = self.expr();
                self.expect(TokenKind::Semi);
                let step = Box::new(self.simple());
                self.expect(TokenKind::RParen);
                Stmt::For { init, cond, step, body: self.block() }
            }
            TokenKind::KwMatch => Stmt::Match(self.expr()),
            TokenKind::KwPrint | TokenKind::KwPrintln => {
                let newline = *self.kind() == TokenKind::KwPrintln;
                self.at += 1;
                self.expect(TokenKind::LParen);
                let parts = self.print_parts();
                self.expect(TokenKind::RParen);
                self.expect(TokenKind::Semi);
                Stmt::Print { newline, parts }
            }
            TokenKind::KwReturn => {
                self.at += 1;
                let value =
                    if *self.kind() == TokenKind::Semi { None } else { Some(self.expr()) };
                self.expect(TokenKind::Semi);
                Stmt::Return { value }
            }
            TokenKind::KwBreak => {
                self.at += 1;
                self.expect(TokenKind::Semi);
                Stmt::Break
            }
            TokenKind::KwContinue => {
                self.at += 1;
                self.expect(TokenKind::Semi);
                Stmt::Continue
            }
            _ => {
                let stmt = self.simple();
                self.expect(TokenKind::Semi);
                stmt
            }
        }
    }

    /// A declaration, an assignment, a push or a call.
    fn simple(&mut self) -> Stmt {
        if self.declares() {
            let ty = self.ty();
            let name = self.ident();
            let id = self.node();
            self.written.insert(id.0, ty);
            self.expect(TokenKind::Eq);
            return Stmt::Decl { id, name, init: self.expr() };
        }
        if matches!(self.kind(), TokenKind::Ident(name) if name == "push") {
            self.at += 1;
            self.expect(TokenKind::LParen);
            let target = place(self.expr());
            self.expect(TokenKind::Comma);
            let value = self.expr();
            self.expect(TokenKind::RParen);
            return Stmt::Push { target, value };
        }
        let expr = self.expr();
        if self.eat(TokenKind::Eq) {
            return Stmt::Assign { target: place(expr), value: self.expr() };
        }
        Stmt::Call(expr)
    }

    fn print_parts(&mut self) -> Vec<PrintPart> {
        let TokenKind::Str(text) = self.kind() else {
            return match self.kind() {
                TokenKind::RParen => Vec::new(),
                _ => vec![PrintPart::Value(self.expr())],
            };
        };
        if !matches!(self.ahead(1), TokenKind::Comma | TokenKind::RParen) {
            return vec![PrintPart::Value(self.expr())];
        }
        let text: Vec<char> = text.chars.clone();
        self.at += 1;
        let mut parts = Vec::new();
        let mut run = Vec::new();
        let mut i = 0;
        while i < text.len() {
            if text[i] == '%' && text.get(i + 1) == Some(&'%') {
                run.push('%');
                i += 1;
            } else if text[i] == '%' {
                if !run.is_empty() {
                    parts.push(PrintPart::Text(std::mem::take(&mut run)));
                }
                self.expect(TokenKind::Comma);
                parts.push(PrintPart::Spec { expr: self.expr() });
                i += 1;
            } else {
                run.push(text[i]);
            }
            i += 1;
        }
        if !run.is_empty() {
            parts.push(PrintPart::Text(run));
        }
        parts
    }

    fn expr(&mut self) -> Expr {
        self.binary(0)
    }

    fn binary(&mut self, level: usize) -> Expr {
        if level == 6 {
            return self.unary();
        }
        let mut left = self.binary(level + 1);
        loop {
            let found = match (level, self.kind()) {
                (0, TokenKind::PipePipe) => Operator::Logic(LogicOp::Or),
                (1, TokenKind::AmpAmp) => Operator::Logic(LogicOp::And),
                (2, TokenKind::EqEq) => Operator::Compare(CmpOp::Eq),
                (2, TokenKind::BangEq) => Operator::Compare(CmpOp::Ne),
                (3, TokenKind::Lt) => Operator::Compare(CmpOp::Lt),
                (3, TokenKind::Le) => Operator::Compare(CmpOp::Le),
                (3, TokenKind::Gt) => Operator::Compare(CmpOp::Gt),
                (3, TokenKind::Ge) => Operator::Compare(CmpOp::Ge),
                (4, TokenKind::Plus) => Operator::Arith(BinOp::Add),
                (4, TokenKind::Minus) => Operator::Arith(BinOp::Sub),
                (5, TokenKind::Star) => Operator::Arith(BinOp::Mul),
                (5, TokenKind::Slash) => Operator::Arith(BinOp::Div),
                (5, TokenKind::Percent) => Operator::Arith(BinOp::Rem),
                _ => return left,
            };
            self.at += 1;
            let (lhs, rhs) = (Box::new(left), Box::new(self.binary(level + 1)));
            let kind = match found {
                Operator::Logic(op) => ExprKind::Logic { op, lhs, rhs },
                Operator::Compare(op) => ExprKind::Cmp { op, lhs, rhs },
                Operator::Arith(op) => ExprKind::Bin { op, lhs, rhs },
            };
            left = Expr { id: self.node(), kind };
        }
    }

    fn unary(&mut self) -> Expr {
        if self.eat(TokenKind::Bang) {
            let inner = Box::new(self.unary());
            return Expr { id: self.node(), kind: ExprKind::Not(inner) };
        }
        if self.eat(TokenKind::Minus) {
            let inner = Box::new(self.unary());
            return Expr { id: self.node(), kind: ExprKind::Neg(inner) };
        }
        let mut expr = self.primary();
        loop {
            if self.eat(TokenKind::Dot) {
                let name = self.ident();
                let object = Box::new(expr);
                let kind = if *self.kind() == TokenKind::LParen {
                    ExprKind::MethodCall { receiver: object, name, args: self.args() }
                } else {
                    ExprKind::Field { object, name }
                };
                expr = Expr { id: self.node(), kind };
            } else if self.eat(TokenKind::LBracket) {
                let index = Box::new(self.expr());
                self.expect(TokenKind::RBracket);
                let kind = ExprKind::Index { array: Box::new(expr), index };
                expr = Expr { id: self.node(), kind };
            } else {
                return expr;
            }
        }
    }

    fn args(&mut self) -> Vec<Expr> {
        self.expect(TokenKind::LParen);
        let mut args = Vec::new();
        while !self.eat(TokenKind::RParen) {
            args.push(self.expr());
            self.eat(TokenKind::Comma);
        }
        args
    }

    fn convert(&mut self, to: Prim) -> ExprKind {
        self.at += 1;
        self.expect(TokenKind::LParen);
        let value = Box::new(self.expr());
        self.expect(TokenKind::RParen);
        ExprKind::Convert { to, value }
    }

    fn primary(&mut self) -> Expr {
        let id = self.node();
        let kind = match self.kind() {
            TokenKind::Int(n) => {
                let n = *n;
                self.at += 1;
                ExprKind::Int(n)
            }
            TokenKind::Float(bits) => {
                let bits = *bits;
                self.at += 1;
                ExprKind::Float(bits)
            }
            TokenKind::Bool(b) => {
                let b = *b;
                self.at += 1;
                ExprKind::Bool(b)
            }
            TokenKind::Char(c) => {
                let c = *c;
                self.at += 1;
                ExprKind::Char(c)
            }
            TokenKind::Str(text) => {
                let chars = text.chars.clone();
                self.at += 1;
                ExprKind::Str(chars)
            }
            TokenKind::LParen => {
                self.at += 1;
                let inner = self.expr();
                self.expect(TokenKind::RParen);
                return inner;
            }
            TokenKind::LBracket => {
                self.at += 1;
                let mut elements = Vec::new();
                while !self.eat(TokenKind::RBracket) {
                    elements.push(self.expr());
                    self.eat(TokenKind::Comma);
                }
                ExprKind::Array { elements }
            }
            TokenKind::KwInt => self.convert(Prim::Int),
            TokenKind::KwFloat => self.convert(Prim::Float),
            TokenKind::KwBool => self.convert(Prim::Bool),
            TokenKind::KwChar => self.convert(Prim::Char),
            TokenKind::KwString => self.convert(Prim::Str),
            TokenKind::KwMatch => self.matching(),
            TokenKind::Ident(_) => {
                let name = self.ident();
                match self.kind() {
                    TokenKind::LParen if name == "len" => {
                        let mut args = self.args();
                        ExprKind::Len { array: Box::new(args.remove(0)) }
                    }
                    TokenKind::LParen => ExprKind::Call { name, args: self.args() },
                    TokenKind::ColonColon => {
                        self.at += 1;
                        let variant = self.ident();
                        let args = if *self.kind() == TokenKind::LParen {
                            self.args()
                        } else {
                            Vec::new()
                        };
                        self.written.insert(id.0, Written::Named(name));
                        ExprKind::Variant { variant, args }
                    }
                    TokenKind::LBrace => {
                        self.at += 1;
                        let mut fields = Vec::new();
                        while !self.eat(TokenKind::RBrace) {
                            let field = self.ident();
                            self.expect(TokenKind::Colon);
                            fields.push(FieldInit { name: field, value: self.expr() });
                            self.eat(TokenKind::Comma);
                        }
                        self.written.insert(id.0, Written::Named(name));
                        ExprKind::New { fields }
                    }
                    _ => ExprKind::Var(name),
                }
            }
            other => panic!("a value was expected, not {other:?}"),
        };
        Expr { id, kind }
    }

    fn matching(&mut self) -> ExprKind {
        self.at += 1;
        self.expect(TokenKind::LParen);
        let scrutinee = Box::new(self.expr());
        self.expect(TokenKind::RParen);
        self.expect(TokenKind::LBrace);
        let mut arms = Vec::new();
        while !self.eat(TokenKind::RBrace) {
            let pattern = self.pattern();
            self.expect(TokenKind::FatArrow);
            let body = if *self.kind() == TokenKind::LBrace {
                ArmBody::Block(self.block())
            } else {
                ArmBody::Value(self.expr())
            };
            arms.push(MatchArm { pattern, body });
            self.eat(TokenKind::Comma);
        }
        ExprKind::Match { scrutinee, arms }
    }

    fn pattern(&mut self) -> Pattern {
        let negative = self.eat(TokenKind::Minus);
        let pattern = match self.kind() {
            TokenKind::Int(n) => Pattern::Int(if negative { -*n } else { *n }),
            TokenKind::Char(c) => Pattern::Char(*c),
            TokenKind::Bool(b) => Pattern::Bool(*b),
            TokenKind::Str(text) => Pattern::Str(text.chars.clone()),
            TokenKind::Float(bits) => Pattern::Float(*bits),
            TokenKind::Ident(name) if name == "_" => Pattern::Wildcard,
            _ => {
                self.ident();
                self.expect(TokenKind::ColonColon);
                let variant = self.ident();
                let mut bindings = Vec::new();
                if self.eat(TokenKind::LParen) {
                    while !self.eat(TokenKind::RParen) {
                        bindings.push(self.ident());
                        self.eat(TokenKind::Comma);
                    }
                }
                return Pattern::Variant { variant, bindings };
            }
        };
        self.at += 1;
        pattern
    }
}

enum Operator {
    Logic(LogicOp),
    Compare(CmpOp),
    Arith(BinOp),
}

/// An expression that was read where something is written to.
fn place(expr: Expr) -> Place {
    match expr.kind {
        ExprKind::Var(name) => Place::Var { name },
        ExprKind::Index { array, index } => {
            Place::Element { base: Box::new(place(*array)), index: *index }
        }
        ExprKind::Field { object, name } => Place::Field { base: Box::new(place(*object)), name },
        other => panic!("{other:?} cannot be written to"),
    }
}

// -- giving every node its type ----------------------------------------------

/// What a program is about: its types, and what every node and function has.
struct Checker<'a> {
    reader: &'a Reader,
    table: TypeTable,
    nodes: Vec<Ty>,
    returns: Vec<Option<Ty>>,
    params: Vec<Vec<Ty>>,
    scopes: Vec<Vec<(String, Ty)>>,
    /// What the function being looked at returns.
    ret: Option<Ty>,
}

impl Checker<'_> {
    fn check(reader: &Reader) -> Types {
        let mut checker = Checker {
            reader,
            table: TypeTable {
                classes: Vec::new(),
                enums: Vec::new(),
                arrays: Vec::new(),
                lists: Vec::new(),
                layout: Layout { word: 8 },
            },
            nodes: vec![Ty::Int; reader.nodes as usize],
            returns: Vec::new(),
            params: Vec::new(),
            scopes: Vec::new(),
            ret: None,
        };
        for (name, variants) in &reader.enums {
            let variants = variants
                .iter()
                .map(|(name, payload)| VariantInfo {
                    name: name.clone(),
                    payload: payload.iter().map(|ty| checker.ty(ty)).collect(),
                })
                .collect();
            checker.table.enums.push(EnumInfo { name: name.clone(), variants });
        }
        for class in 0..reader.classes.len() {
            checker.class(class);
        }
        for signature in &reader.signatures {
            let ret = signature.ret.as_ref().map(|ty| checker.ty(ty));
            let params = signature
                .params
                .iter()
                .map(|ty| match ty {
                    Some(ty) => checker.ty(ty),
                    None => checker.ty(&Written::Named(
                        signature.owner.clone().expect("only a method has a self"),
                    )),
                })
                .collect();
            checker.returns.push(ret);
            checker.params.push(params);
        }
        for (i, function) in reader.functions.iter().enumerate() {
            let scope = function
                .params
                .iter()
                .zip(&checker.params[i])
                .map(|(param, ty)| (param.name.clone(), *ty))
                .collect();
            checker.scopes = vec![scope];
            checker.ret = checker.returns[i];
            checker.block(&function.body);
        }
        Types {
            nodes: checker.nodes,
            returns: checker.returns,
            params: checker.params,
            table: checker.table,
        }
    }

    fn class_at(&self, name: &str) -> Option<usize> {
        self.reader.classes.iter().position(|class| class.name == name)
    }

    /// Bytes an object of exactly one class takes.
    fn size(&mut self, class: usize) -> u32 {
        let written = &self.reader.classes[class];
        let mut size = match &written.parent {
            Some(parent) => {
                let parent = self.class_at(parent).expect("the base is declared");
                self.size(parent)
            }
            None => 8,
        };
        for (ty, _) in &written.fields {
            let ty = self.ty(ty);
            size += self.room(ty);
        }
        size
    }

    /// Whether one class is another or comes below it.
    fn is_a(&self, class: usize, other: usize) -> bool {
        class == other
            || match &self.reader.classes[class].parent {
                Some(parent) => {
                    self.is_a(self.class_at(parent).expect("the base is declared"), other)
                }
                None => false,
            }
    }

    fn room(&mut self, ty: Ty) -> u32 {
        match ty {
            Ty::Array(id) => self.table.arrays[id.0 as usize].bytes,
            Ty::Class(id) => (0..self.reader.classes.len())
                .filter(|class| self.is_a(*class, id.0 as usize))
                .collect::<Vec<usize>>()
                .into_iter()
                .map(|class| self.size(class))
                .max()
                .expect("a class is one of its own"),
            _ => 8,
        }
    }

    fn holds_list(&mut self, ty: Ty) -> bool {
        match ty {
            Ty::List(_) => true,
            Ty::Array(id) => self.table.arrays[id.0 as usize].holds_list,
            Ty::Class(id) => (0..self.reader.classes.len()).any(|class| {
                (self.is_a(class, id.0 as usize) || self.is_a(id.0 as usize, class))
                    && self.reader.classes[class].fields.iter().any(|(ty, _)| {
                        let ty = self.ty(ty);
                        self.holds_list(ty)
                    })
            }),
            _ => false,
        }
    }

    fn class(&mut self, class: usize) {
        let written = &self.reader.classes[class];
        let parent = written.parent.as_ref().map(|parent| {
            let parent = self.class_at(parent).expect("the base is declared");
            assert!(parent < class, "a base is declared before what derives from it");
            parent
        });
        let mut fields: Vec<FieldInfo> = Vec::new();
        let mut methods: Vec<MethodInfo> = Vec::new();
        let mut offset = 8;
        if let Some(parent) = parent {
            let info = &self.table.classes[parent];
            fields = info
                .fields
                .iter()
                .map(|f| FieldInfo { name: f.name.clone(), offset: f.offset, ty: f.ty })
                .collect();
            methods = info
                .methods
                .iter()
                .map(|m| MethodInfo { name: m.name.clone(), slot: m.slot, function: m.function })
                .collect();
            offset = info.size;
        }
        for (ty, name) in &written.fields {
            let ty = self.ty(ty);
            fields.push(FieldInfo { name: name.clone(), offset, ty });
            offset += self.room(ty);
        }
        for function in &written.methods {
            let name = &self.reader.functions[*function].name;
            let function = *function as u32;
            match methods.iter_mut().find(|method| method.name == *name) {
                Some(method) => method.function = function,
                None => {
                    let slot = methods.len() as u32;
                    methods.push(MethodInfo { name: name.clone(), slot, function });
                }
            }
        }
        let ty = Ty::Class(ClassId(class as u32));
        let info = ClassInfo {
            name: written.name.clone(),
            parent: parent.map(|parent| ClassId(parent as u32)),
            fields,
            methods,
            size: offset,
            storage: self.room(ty),
            holds_list: self.holds_list(ty),
        };
        self.table.classes.push(info);
    }

    fn ty(&mut self, written: &Written) -> Ty {
        match written {
            Written::Prim(prim) => prim_ty(*prim),
            Written::Named(name) => {
                match self.reader.enums.iter().position(|(found, _)| found == name) {
                    Some(id) => Ty::Enum(EnumId(id as u32)),
                    None => Ty::Class(ClassId(
                        self.class_at(name).expect("the type is declared") as u32
                    )),
                }
            }
            Written::Array(elem, len) => {
                let elem = self.ty(elem);
                let found =
                    self.table.arrays.iter().position(|a| a.elem == elem && a.len == *len);
                let id = found.unwrap_or_else(|| {
                    let bytes = self.room(elem) * len;
                    let holds_list = self.holds_list(elem);
                    self.table.arrays.push(ArrayInfo { elem, len: *len, bytes, holds_list });
                    self.table.arrays.len() - 1
                });
                Ty::Array(ArrayId(id as u32))
            }
            Written::List(elem) => {
                let elem = self.ty(elem);
                let found = self.table.lists.iter().position(|list| *list == elem);
                let id = found.unwrap_or_else(|| {
                    self.table.lists.push(elem);
                    self.table.lists.len() - 1
                });
                Ty::List(ListId(id as u32))
            }
        }
    }

    fn declared(&mut self, id: NodeId) -> Ty {
        let written = self.reader.written[&id.0].clone();
        self.ty(&written)
    }

    fn element(&self, ty: Ty) -> Ty {
        match ty {
            Ty::Array(id) => self.table.arrays[id.0 as usize].elem,
            Ty::List(id) => self.table.lists[id.0 as usize],
            Ty::Str => Ty::Char,
            other => panic!("{other:?} has no elements"),
        }
    }

    fn field(&self, ty: Ty, name: &str) -> Ty {
        let Ty::Class(id) = ty else { panic!("{ty:?} has no fields") };
        let class = &self.table.classes[id.0 as usize];
        class.fields.iter().find(|f| f.name == name).expect("the field is declared").ty
    }

    fn bound(&self, name: &str) -> Ty {
        let found = self.scopes.iter().rev().flat_map(|scope| scope.iter().rev());
        found.clone().find(|(bound, _)| bound == name).expect("the name is declared").1
    }

    fn block(&mut self, block: &tinyc::ast::Block) {
        self.scopes.push(Vec::new());
        for stmt in &block.stmts {
            self.stmt(stmt);
        }
        self.scopes.pop();
    }

    fn stmt(&mut self, stmt: &Stmt) {
        match stmt {
            Stmt::Decl { id, name, init } => {
                let ty = self.declared(*id);
                self.nodes[id.0 as usize] = ty;
                self.expr(init, Some(ty));
                self.scopes.last_mut().expect("a scope is open").push((name.clone(), ty));
            }
            Stmt::Assign { target, value } => {
                let ty = self.place(target);
                self.expr(value, Some(ty));
            }
            Stmt::Push { target, value } => {
                let ty = self.place(target);
                let elem = self.element(ty);
                self.expr(value, Some(elem));
            }
            Stmt::Print { parts, .. } => {
                for part in parts {
                    match part {
                        PrintPart::Text(_) => {}
                        PrintPart::Value(expr) | PrintPart::Spec { expr } => {
                            self.expr(expr, None);
                        }
                    }
                }
            }
            Stmt::If { cond, then_block, else_block } => {
                self.expr(cond, None);
                self.block(then_block);
                if let Some(block) = else_block {
                    self.block(block);
                }
            }
            Stmt::While { cond, body } => {
                self.expr(cond, None);
                self.block(body);
            }
            Stmt::For { init, cond, step, body } => {
                self.scopes.push(Vec::new());
                self.stmt(init);
                self.expr(cond, None);
                self.stmt(step);
                self.block(body);
                self.scopes.pop();
            }
            Stmt::Return { value } => {
                if let Some(value) = value {
                    self.expr(value, self.ret);
                }
            }
            Stmt::Match(expr) | Stmt::Call(expr) => {
                self.expr(expr, None);
            }
            Stmt::Break | Stmt::Continue => {}
        }
    }

    fn place(&mut self, place: &Place) -> Ty {
        match place {
            Place::Var { name } => self.bound(name),
            Place::Element { base, index } => {
                let base = self.place(base);
                self.expr(index, None);
                self.element(base)
            }
            Place::Field { base, name } => {
                let base = self.place(base);
                self.field(base, name)
            }
        }
    }

    fn expr(&mut self, expr: &Expr, want: Option<Ty>) -> Ty {
        let ty = self.kind(expr, want);
        self.nodes[expr.id.0 as usize] = ty;
        ty
    }

    fn kind(&mut self, expr: &Expr, want: Option<Ty>) -> Ty {
        match &expr.kind {
            ExprKind::Int(_) => Ty::Int,
            ExprKind::Float(_) => Ty::Float,
            ExprKind::Bool(_) => Ty::Bool,
            ExprKind::Str(_) => Ty::Str,
            ExprKind::Char(_) => Ty::Char,
            ExprKind::Var(name) => self.bound(name),
            ExprKind::Variant { variant, args } => {
                let ty = self.declared(expr.id);
                let Ty::Enum(id) = ty else { panic!("{ty:?} has no variants") };
                let info = &self.table.enums[id.0 as usize];
                let found = info.variants.iter().find(|v| v.name == *variant);
                let payload = found.expect("the variant is declared").payload.clone();
                for (arg, ty) in args.iter().zip(payload) {
                    self.expr(arg, Some(ty));
                }
                ty
            }
            ExprKind::New { fields } => {
                let ty = self.declared(expr.id);
                for field in fields {
                    let wanted = self.field(ty, &field.name);
                    self.expr(&field.value, Some(wanted));
                }
                ty
            }
            ExprKind::Field { object, name } => {
                let object = self.expr(object, None);
                self.field(object, name)
            }
            ExprKind::MethodCall { receiver, name, args } => {
                let receiver = self.expr(receiver, None);
                let Ty::Class(id) = receiver else { panic!("{receiver:?} has no methods") };
                let class = &self.table.classes[id.0 as usize];
                let method = class.methods.iter().find(|m| m.name == *name);
                let function = method.expect("the method is declared").function as usize;
                self.arguments(args, function, 1);
                self.returns[function].unwrap_or(Ty::Int)
            }
            ExprKind::Array { elements } => {
                let ty = want.unwrap_or_else(|| {
                    let elem = self.expr(&elements[0], None);
                    let found = self.table.lists.iter().position(|list| *list == elem);
                    Ty::List(ListId(found.unwrap_or(0) as u32))
                });
                let elem = self.element(ty);
                for element in elements {
                    self.expr(element, Some(elem));
                }
                ty
            }
            ExprKind::Index { array, index } => {
                let array = self.expr(array, None);
                self.expr(index, None);
                self.element(array)
            }
            ExprKind::Len { array } => {
                self.expr(array, None);
                Ty::Int
            }
            ExprKind::Convert { to, value } => {
                self.expr(value, None);
                prim_ty(*to)
            }
            ExprKind::Bin { lhs, rhs, .. } => {
                let ty = self.expr(lhs, None);
                self.expr(rhs, None);
                ty
            }
            ExprKind::Cmp { lhs, rhs, .. } | ExprKind::Logic { lhs, rhs, .. } => {
                self.expr(lhs, None);
                self.expr(rhs, None);
                Ty::Bool
            }
            ExprKind::Neg(inner) => self.expr(inner, None),
            ExprKind::Not(inner) => self.expr(inner, None),
            ExprKind::Match { scrutinee, arms } => {
                let scrutinee = self.expr(scrutinee, None);
                let mut answer = want;
                for arm in arms {
                    self.scopes.push(self.bindings(scrutinee, &arm.pattern));
                    match &arm.body {
                        ArmBody::Value(value) => {
                            let ty = self.expr(value, want);
                            answer = answer.or(Some(ty));
                        }
                        ArmBody::Block(block) => self.block(block),
                    }
                    self.scopes.pop();
                }
                answer.unwrap_or(Ty::Int)
            }
            ExprKind::Call { name, args } => match name.as_str() {
                "read_line" => Ty::Str,
                "eof" => Ty::Bool,
                "is_int" => {
                    self.expr(&args[0], None);
                    Ty::Bool
                }
                _ => {
                    let found = (0..self.reader.functions.len()).find(|i| {
                        self.reader.functions[*i].name == *name
                            && self.reader.signatures[*i].owner.is_none()
                    });
                    let function = found.expect("the function is declared");
                    self.arguments(args, function, 0);
                    self.returns[function].unwrap_or(Ty::Int)
                }
            },
        }
    }

    fn arguments(&mut self, args: &[Expr], function: usize, from: usize) {
        for (i, arg) in args.iter().enumerate() {
            let wanted = self.params[function][i + from];
            self.expr(arg, Some(wanted));
        }
    }

    fn bindings(&self, scrutinee: Ty, pattern: &Pattern) -> Vec<(String, Ty)> {
        match (scrutinee, pattern) {
            (Ty::Enum(id), Pattern::Variant { variant, bindings }) => {
                let info = &self.table.enums[id.0 as usize];
                let found = info.variants.iter().find(|v| v.name == *variant);
                let payload = &found.expect("the variant is declared").payload;
                bindings.iter().cloned().zip(payload.iter().copied()).collect()
            }
            _ => Vec::new(),
        }
    }
}

fn prim_ty(prim: Prim) -> Ty {
    match prim {
        Prim::Int => Ty::Int,
        Prim::Float => Ty::Float,
        Prim::Bool => Ty::Bool,
        Prim::Char => Ty::Char,
        Prim::Str => Ty::Str,
    }
}

/// A checked program: the tree, and the type of everything in it.
fn checked(src: &str) -> (tinyc::ast::Program, Types) {
    let reader = Reader::read(src);
    let types = Checker::check(&reader);
    let classes = reader
        .classes
        .iter()
        .map(|class| ClassDecl { name: class.name.clone(), methods: class.methods.clone() })
        .collect();
    (tinyc::ast::Program { functions: reader.functions, classes }, types)
}

// -- lowering ----------------------------------------------------------------

fn lower_src(src: &str) -> Program {
    try_lower(src).expect("the frames should fit")
}

fn try_lower(src: &str) -> Result<Program, Vec<Diagnostic>> {
    let (ast, types) = checked(src);
    lower(&ast, types)
}

/// Lower a `main` body and return that one function.
fn lower_main(body: &str) -> Program {
    lower_src(&format!("fn main() {{\n{body}\n}}\n"))
}

/// The dump of a single-function program, without its signature line and
/// trailing blank, so the existing block-shape assertions stay readable.
fn body_dump(program: &Program) -> String {
    let dump = program.dump();
    let start = dump.find(":\n").expect("a signature line") + 2;
    dump[start..].trim_end().to_string() + "\n"
}

fn labels(function: &Function) -> Vec<String> {
    function.blocks.iter().map(|b| b.label()).collect()
}

#[test]
fn tests_lowers_the_sample_program() {
    let ir = lower_main("int x = 10;\nint y = 20;\nstring s = \"hi\";\nprint(x + y);\nprint(s);");
    assert_eq!(
        body_dump(&ir),
        [
            "entry0:\n",
            "  0  %x = const 10\n",
            "  1  %y = const 20\n",
            "  2  %s = straddr str0\n",
            "  3  %t3 = add %x, %y\n",
            "  4  print int %t3\n",
            "  5  print string %s\n",
            "  6  return\n",
        ].concat()
    );
}

#[test]
fn tests_an_assignment_writes_the_variables_own_register() {
    // No `%n.1`: with control flow a variable must have one home, so the
    // second write targets the same register.
    let ir = lower_main("int n = 1;\nn = n + 41;\nprint(n);");
    assert_eq!(
        body_dump(&ir),
        [
            "entry0:\n",
            "  0  %n = const 1\n",
            "  1  %n = add %n, 41\n",
            "  2  print int %n\n",
            "  3  return\n",
        ].concat()
    );
}

#[test]
fn tests_an_if_produces_a_diamond() {
    let ir = lower_main("int n = 0;\nif (n < 1) {\n  n = 2;\n} else {\n  n = 3;\n}\nprint(n);");
    let main = &ir.functions[0];
    assert_eq!(labels(main), vec!["entry0", "then1", "else2", "join3"]);
    assert!(matches!(main.blocks[0].term, Terminator::Branch { .. }));
    assert!(matches!(main.blocks[1].term, Terminator::Jump(Target { block: BlockId(3), .. })));
    assert!(matches!(main.blocks[2].term, Terminator::Jump(Target { block: BlockId(3), .. })));
}

#[test]
fn tests_an_if_without_else_branches_straight_to_the_join() {
    let ir = lower_main("int n = 0;\nif (n < 1) {\n  n = 2;\n}\nprint(n);");
    let main = &ir.functions[0];
    assert_eq!(labels(main), vec!["entry0", "then1", "join2"]);
    match &main.blocks[0].term {
        Terminator::Branch { then_blk, else_blk, .. } => {
            assert_eq!((then_blk.block, else_blk.block), (BlockId(1), BlockId(2)));
        }
        other => panic!("expected a branch, got {other:?}"),
    }
}

#[test]
fn tests_a_while_loop_closes_a_back_edge() {
    let ir = lower_main("int i = 0;\nwhile (i < 3) {\n  i = i + 1;\n}\nprint(i);");
    let main = &ir.functions[0];
    assert_eq!(labels(main), vec!["entry0", "loop1", "body2", "done3"]);
    // The body jumps back to the header, which re-tests the condition.
    assert!(matches!(main.blocks[2].term, Terminator::Jump(Target { block: BlockId(1), .. })));
    assert!(matches!(main.blocks[0].term, Terminator::Jump(Target { block: BlockId(1), .. })));
}

#[test]
fn tests_a_for_loop_desugars_into_the_same_shape() {
    let with_for = lower_main("for (int i = 0; i < 3; i = i + 1) {\n  print(i);\n}");
    let with_while = lower_main("int i = 0;\nwhile (i < 3) {\n  print(i);\n  i = i + 1;\n}");
    assert_eq!(with_for.dump(), with_while.dump());
}

// -- classes -----------------------------------------------------------

#[test]
fn tests_an_object_is_room_a_vtable_pointer_and_its_fields() {
    let ir = lower_src(
        "class Circle {\n  int r;\n  fn area(self) -> int { return self.r; }\n}\n\
         fn main() {\n  Circle c = Circle { r: 5 };\n  print(c.r);\n}",
    );
    let main = ir.functions.iter().find(|f| f.name == "main").expect("main survives");
    let text: Vec<String> =
        main.blocks[0].instrs.iter().map(|i| ir.instr_text(main, i)).collect();
    assert_eq!(
        text,
        vec![
            "%c = frame 0",
            "%t1 = vtable Circle",
            "store %c, %t1",
            "%t2 = field %c + 8",
            "store %t2, 5",
            "%t4 = field %c + 8",
            "%t3 = load %t4",
            "print int %t3",
        ]
    );
}

#[test]
fn tests_a_field_of_the_base_comes_before_one_of_the_subclass() {
    // The prefix rule, which is what makes an upcast free.
    let ir = lower_src(
        "class Base {\n  int a;\n}\nclass Derived : Base {\n  int b;\n}\n\
         fn main() {\n  Derived d = Derived { a: 1, b: 2 };\n  print(d.a + d.b);\n}",
    );
    let offsets: Vec<u32> =
        ir.table.class(ClassId(1)).fields.iter().map(|f| f.offset).collect();
    // The vtable pointer takes offset 0.
    assert_eq!(offsets, vec![8, 16]);
}

#[test]
fn tests_an_aggregate_field_is_its_address_rather_than_something_to_read() {
    // The rule an element already followed: a value too big for a register
    // *is* where it lives. Reading eight bytes out of `s.b` would produce
    // the inner object's vtable pointer, and writing through that would
    // land in the vtable rather than in the object.
    let ir = lower_src(
        "class Point {\n  int x;\n}\n\
         class Segment {\n  Point a;\n  Point b;\n}\n\
         fn main() {\n  \
         Segment s = Segment { a: Point { x: 1 }, b: Point { x: 2 } };\n  \
         s.b.x = 3;\n  \
         print(s.b.x);\n}",
    );
    // `b` starts past the whole of `a`, rather than one register after it.
    let offsets: Vec<u32> =
        ir.table.class(ClassId(1)).fields.iter().map(|f| f.offset).collect();
    assert_eq!(offsets, vec![8, 24]);

    let main = ir.functions.iter().find(|f| f.name == "main").expect("main survives");
    let loads =
        main.blocks[0].instrs.iter().filter(|i| matches!(i, Instr::Load { .. })).count();
    // One, and it is the `print`. Reaching `s.b` to write through it reads
    // nothing at all.
    assert_eq!(loads, 1, "{}", ir.dump());
}

#[test]
fn tests_writing_through_an_element_that_is_an_object_reaches_the_element() {
    let ir = lower_src(
        "class Point {\n  int x;\n}\n\
         fn main() {\n  \
         Point[2] ps = [Point { x: 1 }, Point { x: 2 }];\n  \
         ps[1].x = 7;\n  \
         print(ps[1].x);\n}",
    );
    let main = ir.functions.iter().find(|f| f.name == "main").expect("main survives");
    let loads =
        main.blocks[0].instrs.iter().filter(|i| matches!(i, Instr::Load { .. })).count();
    assert_eq!(loads, 1, "{}", ir.dump());
}

#[test]
fn tests_a_call_on_a_class_with_subclasses_goes_through_the_vtable() {
    let ir = lower_src(
        "class Shape {\n  fn area(self) -> int { return 0; }\n}\n\
         class Circle : Shape {\n  int r;\n  fn area(self) -> int { return self.r; }\n}\n\
         fn report(Shape s) {\n  print(s.area());\n}\n\
         fn main() {\n  report(Circle { r: 1 });\n}",
    );
    let report = ir.functions.iter().find(|f| f.name == "report").expect("report survives");
    assert!(
        report.blocks[0].instrs.iter().any(|i| matches!(i, Instr::CallVirtual { slot: 0, .. })),
        "{}",
        ir.dump()
    );
}

#[test]
fn tests_a_call_on_a_class_with_none_is_settled_at_compile_time() {
    // Whole-program compilation is what makes this knowable: nothing can
    // derive from `Point` afterwards, so there is one answer and no reason
    // to ask at run time.
    let ir = lower_src(
        "class Point {\n  int x;\n  fn get(self) -> int { return self.x; }\n}\n\
         fn main() {\n  Point p = Point { x: 1 };\n  print(p.get());\n}",
    );
    let main = ir.functions.iter().find(|f| f.name == "main").expect("main survives");
    assert!(
        !main.blocks[0].instrs.iter().any(|i| matches!(i, Instr::CallVirtual { .. })),
        "{}",
        ir.dump()
    );
    assert!(
        main.blocks[0].instrs.iter().any(|i| matches!(i, Instr::Call { .. })),
        "{}",
        ir.dump()
    );
}

#[test]
fn tests_a_subclass_vtable_is_its_base_with_the_overrides_replaced() {
    let ir = lower_src(
        "class Shape {\n  fn area(self) -> int { return 0; }\n  \
         fn name(self) -> string { return \"shape\"; }\n}\n\
         class Circle : Shape {\n  int r;\n  fn area(self) -> int { return self.r; }\n}\n\
         fn main() {\n  Circle c = Circle { r: 1 };\n  print(c.area());\n}",
    );
    // Same two slots in the same order; only the first was overridden.
    let shape = ir.table.class(ClassId(0));
    let circle = ir.table.class(ClassId(1));
    let names: Vec<&str> = circle.methods.iter().map(|m| m.name.as_str()).collect();
    assert_eq!(names, vec!["area", "name"]);
    assert_eq!(circle.methods[0].slot, shape.methods[0].slot);
    assert_ne!(circle.methods[0].function, shape.methods[0].function);
    assert_eq!(circle.methods[1].function, shape.methods[1].function);
}

#[test]
fn tests_storage_is_the_biggest_in_the_hierarchy() {
    // What will let a value of a base class hold any of its subclasses.
    let ir = lower_src(
        "class Shape {\n  fn area(self) -> int { return 0; }\n}\n\
         class Circle : Shape {\n  int r;\n  fn area(self) -> int { return self.r; }\n}\n\
         class Rect : Shape {\n  int w;\n  int h;\n  \
         fn area(self) -> int { return self.w; }\n}\n\
         fn main() {\n  Rect r = Rect { w: 1, h: 2 };\n  print(r.area());\n}",
    );
    // `Shape` is 8 on its own; the biggest thing that *is* one is `Rect`.
    assert_eq!(ir.table.class(ClassId(0)).size, 8);
    assert_eq!(ir.table.class(ClassId(0)).storage, 24);
    assert_eq!(ir.table.class(ClassId(2)).storage, 24);
}

#[test]
fn tests_a_method_is_named_after_its_class() {
    // Two classes may both have a `go`, so the flat list of callables has
    // to keep them apart — and so do their symbols.
    let ir = lower_src(
        "class A {\n  fn go(self) -> int { return 1; }\n}\n\
         class B {\n  fn go(self) -> int { return 2; }\n}\n\
         fn main() {\n  A a = A { };\n  B b = B { };\n  print(a.go() + b.go());\n}",
    );
    let names: Vec<&str> = ir.functions.iter().map(|f| f.name.as_str()).collect();
    assert!(names.contains(&"A$go"), "{names:?}");
    assert!(names.contains(&"B$go"), "{names:?}");
}

#[test]
fn tests_a_class_nothing_builds_keeps_none_of_its_methods() {
    // Making an object is what makes its methods callable, and the only
    // thing that does.
    let ir = lower_src(
        "class Used {\n  fn f(self) -> int { return 1; }\n}\n\
         class Unused {\n  fn f(self) -> int { return 2; }\n}\n\
         fn main() {\n  Used u = Used { };\n  print(u.f());\n}",
    );
    let names: Vec<&str> = ir.functions.iter().map(|f| f.name.as_str()).collect();
    assert!(names.contains(&"Used$f"), "{names:?}");
    assert!(!names.contains(&"Unused$f"), "{names:?}");
}

// -- arrays ------------------------------------------------------------

#[test]
fn tests_an_array_is_room_in_the_frame_and_a_store_per_element() {
    let ir = lower_main("int[3] xs = [10, 20, 30];\nprint(xs[0]);");
    assert_eq!(
        body_dump(&ir),
        [
            "entry0:\n",
            "  0  %xs = frame 0\n",
            "  1  %t1 = elem %xs[0] of 3 by 8\n",
            "  2  store %t1, 10\n",
            "  3  %t2 = elem %xs[1] of 3 by 8\n",
            "  4  store %t2, 20\n",
            "  5  %t3 = elem %xs[2] of 3 by 8\n",
            "  6  store %t3, 30\n",
            "  7  %t4 = elem %xs[0] of 3 by 8\n",
            "  8  %t5 = load %t4\n",
            "  9  print int %t5\n",
            " 10  return\n",
        ].concat()
    );
}

#[test]
fn tests_the_frame_is_sized_by_what_the_function_declared() {
    let ir = lower_main("int[3] a = [1, 2, 3];\nbool[2] b = [true, false];\nprint(a[0]);");
    // Two arrays, five elements, eight bytes each.
    assert_eq!(ir.functions[0].frame_bytes, 40);
    // And they do not overlap.
    let offsets: Vec<u32> = ir.functions[0].blocks[0]
        .instrs
        .iter()
        .filter_map(|i| match i {
            Instr::Frame { offset, .. } => Some(*offset),
            _ => None,
        })
        .collect();
    assert_eq!(offsets, vec![0, 24]);
}

/// A literal at a place that already has an address is built *there*.
///
/// Built in room of its own and copied, it would cost the room for the whole
/// call, whether or not anything still needed it, and a `CopyBytes` nobody asked
/// for.
#[test]
fn tests_a_literal_in_a_place_that_has_room_reserves_none_of_its_own() {
    let ir = lower_src(
        "class P { int[2] xs; }\nfn main() {\n  P p = P { xs: [1, 2] };\n  print(p.xs[0]);\n}",
    );
    let main = &ir.functions[0];
    // One reservation, for the object. The array goes inside it.
    let frames: Vec<u32> = main.blocks[0]
        .instrs
        .iter()
        .filter_map(|i| match i {
            Instr::Frame { offset, .. } => Some(*offset),
            _ => None,
        })
        .collect();
    assert_eq!(frames, vec![0], "the literal reserved room of its own: {}", ir.dump());
    // `P` is a vtable pointer and two ints, and that is the whole frame.
    assert_eq!(main.frame_bytes, 24);
    // And nothing is copied, because nothing was built anywhere else.
    assert!(
        !main.blocks[0].instrs.iter().any(|i| matches!(i, Instr::CopyBytes { .. })),
        "{}",
        ir.dump()
    );
}

/// The same literal *assigned* is not, because it may read what it is
/// overwriting.
#[test]
fn tests_a_literal_assigned_over_a_place_is_built_elsewhere_and_copied() {
    let ir = lower_main("int[2] a = [1, 2];\na = [a[1], a[0]];\nprint(a[0]);");
    let main = &ir.functions[0];
    assert!(
        main.blocks[0].instrs.iter().any(|i| matches!(i, Instr::CopyBytes { .. })),
        "the swap has to change all at once: {}",
        ir.dump()
    );
    // Two reservations: the variable, and the room the swap is built in.
    assert_eq!(main.frame_bytes, 32);
}

/// Two blocks that cannot be running at once share their room.
#[test]
fn tests_a_blocks_frame_goes_back_when_the_block_ends() {
    let shared = lower_main(
        "int n = 0;\nif (n == 0) {\n  int[3] a = [1, 2, 3];\n  n = a[0];\n}\n\
         else {\n  int[3] b = [4, 5, 6];\n  n = b[0];\n}\nprint(n);",
    );
    // Three ints, once, rather than once per arm.
    assert_eq!(shared.functions[0].frame_bytes, 24);

    // What is reserved is the most ever needed at *once*, so two arrays
    // that really are live together still get room each.
    let both = lower_main("int[3] a = [1, 2, 3];\nint[3] b = [4, 5, 6];\nprint(a[0] + b[0]);");
    assert_eq!(both.functions[0].frame_bytes, 48);
}

/// One `int[1024]` is 8,192 bytes, so the limit falls between the
/// thirty-second and the thirty-third. The boundary is checked from both
/// sides because an off-by-one here is a program that either crashes or is
/// refused for no reason.
fn arrays_worth(bytes: u32) -> String {
    let elements = vec!["0"; 1024].join(", ");
    let count = bytes.div_ceil(1024 * 8);
    let declarations: String =
        (0..count).map(|i| format!("  int[1024] a{i} = [{elements}];\n")).collect();
    format!("fn main() {{\n{declarations}  println(a0[0]);\n}}\n")
}

#[test]
fn tests_a_frame_no_stack_would_hold_is_refused() {
    let Err(errors) = try_lower(&arrays_worth(MAX_FRAME_BYTES + 1)) else {
        panic!("past the limit is past the limit");
    };
    assert_eq!(errors.len(), 1, "{errors:?}");
    assert!(errors[0].message.contains("needs too much stack"), "{:?}", errors[0]);
    // The caret goes on the function's name, which is the one place a
    // reader can act on: no single declaration is the culprit.
    assert!(errors[0].label.as_ref().is_some_and(|l| l.contains("262144")), "{:?}", errors[0]);
}

#[test]
fn tests_a_frame_that_only_just_fits_is_not() {
    let ir = try_lower(&arrays_worth(MAX_FRAME_BYTES)).expect("exactly the limit is allowed");
    assert_eq!(ir.functions[0].frame_bytes, MAX_FRAME_BYTES);
}

#[test]
fn tests_a_frame_is_measured_in_the_function_that_declares_it() {
    // Two functions of half the limit each. Neither is refused: a frame is
    // one call's, and these two are never on the stack at the same time
    // unless one calls the other — which is what the *runtime* check is
    // for, and it is a question about depth, not about size.
    let half = MAX_FRAME_BYTES / 2;
    let mut src = arrays_worth(half).replace("fn main()", "fn other()");
    src.push_str(&arrays_worth(half));
    try_lower(&src).expect("two half-sized frames are two frames, not one");
}

#[test]
fn tests_a_function_with_no_arrays_reserves_nothing() {
    assert_eq!(lower_main("int n = 1;\nprint(n);").functions[0].frame_bytes, 0);
}

#[test]
fn tests_len_is_a_constant_and_costs_nothing() {
    // It is a fact about the type, so nothing computes it.
    let ir = lower_main("int[4] xs = [1, 2, 3, 4];\nprint(len(xs));");
    let main = &ir.functions[0];
    assert!(
        matches!(main.blocks[0].instrs.last(), Some(Instr::Print { val: Value::Const(4), .. })),
        "{}",
        ir.dump()
    );
}

#[test]
fn tests_an_element_address_is_one_instruction_and_never_arithmetic() {
    // `base + index * 8` is an addressing mode, so it picks up none of the
    // overflow guards `Bin` carries.
    let ir = lower_main("int[3] xs = [1, 2, 3];\nint i = 1;\nprint(xs[i]);");
    let main = &ir.functions[0];
    let elems = main.blocks[0].instrs.iter().filter(|i| matches!(i, Instr::Elem { .. })).count();
    // Three to build it, one to read it.
    assert_eq!(elems, 4, "{}", ir.dump());
    assert!(
        !main.blocks[0]
            .instrs
            .iter()
            .any(|i| matches!(i, Instr::Bin { op: BinOp::Mul, .. })),
        "{}",
        ir.dump()
    );
}

#[test]
fn tests_writing_through_an_index_stores_rather_than_copying_a_register() {
    let ir = lower_main("int[2] xs = [1, 2];\nxs[1] = 7;\nprint(xs[1]);");
    let main = &ir.functions[0];
    // Two stores for the literal, one for the assignment.
    let stores = main.blocks[0].instrs.iter().filter(|i| matches!(i, Instr::Store { .. })).count();
    assert_eq!(stores, 3, "{}", ir.dump());
}

#[test]
fn tests_an_array_parameter_is_an_address_like_any_other_value() {
    let ir = lower_src(
        "fn first(int[2] xs) -> int {\n  return xs[0];\n}\n\
         fn main() {\n  int[2] xs = [1, 2];\n  print(first(xs));\n}",
    );
    let first = &ir.functions[0];
    // Nothing is copied in: the register holds the caller's address.
    assert!(matches!(first.blocks[0].instrs[0], Instr::Param { index: 0, .. }));
    assert!(!first.blocks.iter().flat_map(|b| &b.instrs).any(|i| matches!(i, Instr::Frame { .. })));
}

// -- enums and match ---------------------------------------------------

/// A `Colour` enum and a `main`, so the tests about enums stay about enums.
fn lower_colour(body: &str) -> Program {
    lower_src(&format!("enum Colour {{ Red, Green, Blue }}\nfn main() {{\n{body}\n}}\n"))
}

#[test]
fn tests_a_variant_lowers_to_its_tag_and_nothing_else() {
    // The whole representation: a variant is where it was written in the
    // declaration, so it is an immediate like any other integer.
    let ir = lower_colour("Colour c = Colour::Blue;\nprint(c);");
    assert_eq!(
        body_dump(&ir),
        [
            "entry0:\n",
            "  0  %c = const 2\n",
            "  1  print Colour %c\n",
            "  2  return\n",
        ].concat()
    );
}

#[test]
fn tests_a_variant_used_as_an_operand_stays_an_immediate() {
    let ir = lower_colour("Colour c = Colour::Red;\nprint(c == Colour::Green);");
    assert!(
        ir.functions[0].blocks[0]
            .instrs
            .iter()
            .any(|i| matches!(i, Instr::Cmp { rhs: Value::Const(1), .. })),
        "{}",
        ir.dump()
    );
}

#[test]
fn tests_a_match_tests_every_variant_but_the_last() {
    // Exhaustiveness pays for itself here: there is nowhere else for the
    // value to be, so the final test would always succeed.
    let ir = lower_colour(
        "Colour c = Colour::Red;\nmatch (c) {\n  Colour::Red => { print(1); }\n  \
         Colour::Green => { print(2); }\n  Colour::Blue => { print(3); }\n}",
    );
    let main = &ir.functions[0];
    assert_eq!(labels(main), vec!["entry0", "arm1", "case2", "arm3", "arm4", "join5"]);

    let comparisons = main
        .blocks
        .iter()
        .flat_map(|b| &b.instrs)
        .filter(|i| matches!(i, Instr::Cmp { .. }))
        .count();
    assert_eq!(comparisons, 2, "three variants need two tests: {}", ir.dump());
}

#[test]
fn tests_each_match_arm_reaches_the_same_join() {
    let ir = lower_colour(
        "Colour c = Colour::Red;\nmatch (c) {\n  Colour::Red => { print(1); }\n  \
         Colour::Green => { print(2); }\n  Colour::Blue => { print(3); }\n}\nprint(9);",
    );
    let main = &ir.functions[0];
    let join = BlockId(5);
    for arm in [1usize, 3, 4] {
        assert!(
            matches!(&main.blocks[arm].term, Terminator::Jump(target) if target.block == join),
            "arm {arm}: {}",
            ir.dump()
        );
    }
}

#[test]
fn tests_a_single_variant_enum_needs_no_test_at_all() {
    // There is only one place the value can be, so the scrutinee's block
    // simply runs into the one arm.
    let ir = lower_src(
        "enum Unit { Only }\nfn main() {\n  Unit u = Unit::Only;\n  \
         match (u) {\n    Unit::Only => { print(1); }\n  }\n}",
    );
    let main = &ir.functions[0];
    assert!(
        !main.blocks.iter().flat_map(|b| &b.instrs).any(|i| matches!(i, Instr::Cmp { .. })),
        "{}",
        ir.dump()
    );
    assert!(matches!(main.blocks[0].term, Terminator::Jump(_)), "{}", ir.dump());
}

#[test]
fn tests_the_arms_are_matched_in_the_order_they_are_written() {
    // Not in declaration order: an arm's tag comes from its own pattern.
    let ir = lower_colour(
        "Colour c = Colour::Red;\nmatch (c) {\n  Colour::Blue => { print(1); }\n  \
         Colour::Red => { print(2); }\n  Colour::Green => { print(3); }\n}",
    );
    let tags: Vec<i64> = ir.functions[0]
        .blocks
        .iter()
        .flat_map(|b| &b.instrs)
        .filter_map(|i| match i {
            Instr::Cmp { rhs: Value::Const(tag), .. } => Some(*tag),
            _ => None,
        })
        .collect();
    assert_eq!(tags, vec![2, 0], "{}", ir.dump());
}

#[test]
fn tests_a_loop_jump_inside_an_arm_belongs_to_the_loop() {
    let ir = lower_src(
        "enum A { X, Y }\nfn main() {\n  while (true) {\n    A a = A::X;\n    \
         match (a) {\n      A::X => { break; }\n      A::Y => { print(1); }\n    }\n  }\n}",
    );
    // The `break` leaves for the loop's exit, not the match's join.
    let main = &ir.functions[0];
    let done = main
        .blocks
        .iter()
        .position(|b| b.kind == BlockKind::Done)
        .expect("the loop has an exit");
    assert!(
        main.blocks.iter().any(|b| matches!(&b.term, Terminator::Jump(t) if t.block.0 as usize == done)),
        "{}",
        ir.dump()
    );
}

#[test]
fn tests_every_value_arm_writes_the_same_register() {
    // The trick `&&` already plays, with more arms: lowering emits a register
    // per variable, so the join reads the one several blocks wrote. SSA turns
    // that into a parameter afterwards — this is what it is handed.
    let ir = lower_colour(
        "string s = match (Colour::Red) {\n  Colour::Red => \"a\",\n  \
         Colour::Green => \"b\",\n  Colour::Blue => \"c\",\n};\nprint(s);",
    );
    let main = &ir.functions[0];
    let written: Vec<VReg> = main
        .blocks
        .iter()
        .filter(|b| b.kind == BlockKind::Arm)
        .filter_map(|b| b.instrs.last().and_then(|i| i.def()))
        .collect();
    assert_eq!(written.len(), 3, "{}", ir.dump());
    assert!(written.windows(2).all(|w| w[0] == w[1]), "{written:?} in {}", ir.dump());
}

#[test]
fn tests_a_block_arm_writes_nothing_and_never_reaches_the_join() {
    let ir = lower_src(
        "enum A { X, Y }\nfn f(A a) -> int {\n  return match (a) {\n    A::X => 1,\n    \
         A::Y => { print(9); return 2; }\n  };\n}\nfn main() {\n  print(f(A::X));\n}",
    );
    let f = &ir.functions[0];
    // The diverging arm ends in a `return`, not a jump to the join.
    assert!(
        f.blocks
            .iter()
            .filter(|b| b.kind == BlockKind::Arm)
            .any(|b| matches!(b.term, Terminator::Return(Some(_)))),
        "{}",
        ir.dump()
    );
}

#[test]
fn tests_a_match_statement_needs_no_destination() {
    // Nothing reads it, so no temporary is spent on one.
    let ir = lower_colour(
        "match (Colour::Red) {\n  Colour::Red => { print(1); }\n  \
         Colour::Green => { print(2); }\n  Colour::Blue => { print(3); }\n}",
    );
    let main = &ir.functions[0];
    let joins: Vec<&Block> =
        main.blocks.iter().filter(|b| b.kind == BlockKind::Join).collect();
    assert_eq!(joins.len(), 1);
    assert!(joins[0].instrs.is_empty(), "{}", ir.dump());
}

#[test]
fn tests_a_match_expression_folds_its_arms_like_any_other_operand() {
    // A variant arm is a constant, so it never reaches a register at all.
    let ir = lower_src(
        "enum A { X, Y }\nfn main() {\n  A a = match (A::X) {\n    A::X => A::Y,\n    \
         A::Y => A::X,\n  };\n  print(a);\n}",
    );
    let main = &ir.functions[0];
    assert!(
        main.blocks
            .iter()
            .flat_map(|b| &b.instrs)
            .any(|i| matches!(i, Instr::Const { val: 1, .. })),
        "{}",
        ir.dump()
    );
}

#[test]
fn tests_the_enums_travel_with_the_program() {
    // The backend needs the names to print one, and the dump to name the
    // type; the values themselves need nothing.
    let ir = lower_colour("print(Colour::Red);");
    assert_eq!(ir.table.enums.len(), 1);
    assert_eq!(ir.table.enums[0].name, "Colour");
    assert_eq!(ir.table.enums[0].variants.iter().map(|v| v.name.as_str()).collect::<Vec<&str>>(), vec!["Red", "Green", "Blue"]);
}

// -- negation and remainder --------------------------------------------

#[test]
fn tests_negating_a_comparison_inverts_it_in_place() {
    // `!(a < b)` is `a >= b`: one comparison, not a comparison plus a
    // comparison against its result.
    let ir = lower_main("int a = 1;\nint b = 2;\nprint(!(a < b));");
    let comparisons: Vec<&Instr> = ir.functions[0].blocks[0]
        .instrs
        .iter()
        .filter(|i| matches!(i, Instr::Cmp { .. }))
        .collect();
    assert_eq!(comparisons.len(), 1, "{}", ir.dump());
    assert!(matches!(comparisons[0], Instr::Cmp { op: CmpOp::Ge, .. }), "{comparisons:?}");
}

#[test]
fn tests_negating_anything_else_compares_it_against_zero() {
    // There is no `not` instruction, and none is needed: `!ok` *is*
    // `ok == 0`, which folds and fuses like any other comparison.
    let ir = lower_main("bool ok = true;\nint n = 1;\nok = n > 0;\nprint(!ok);");
    assert!(
        ir.functions[0].blocks[0]
            .instrs
            .iter()
            .any(|i| matches!(i, Instr::Cmp { op: CmpOp::Eq, rhs: Value::Const(0), .. })),
        "{}",
        ir.dump()
    );
}

#[test]
fn tests_negating_a_literal_is_folded() {
    let ir = lower_main("print(!true);");
    let main = &ir.functions[0];
    assert_eq!(main.blocks[0].instrs.len(), 1, "{}", ir.dump());
    assert!(matches!(main.blocks[0].instrs[0], Instr::Print { val: Value::Const(0), .. }));
}

#[test]
fn tests_a_remainder_between_literals_is_computed_at_compile_time() {
    let ir = lower_main("print(17 % 5);");
    let main = &ir.functions[0];
    assert!(
        matches!(main.blocks[0].instrs[0], Instr::Print { val: Value::Const(2), .. }),
        "{}",
        ir.dump()
    );
}

#[test]
fn tests_an_operation_on_something_unknown_stays_an_instruction() {
    // The other half: what the folder cannot answer becomes a guarded
    // instruction, and the program fails where it was written.
    for (source, op) in [
        ("int z = 0;\nprint(1 / z);", BinOp::Div),
        ("int z = 0;\nprint(1 % z);", BinOp::Rem),
        ("int n = 1;\nprint(n + 9223372036854775807);", BinOp::Add),
    ] {
        let ir = lower_main(source);
        assert!(
            ir.functions[0]
                .blocks
                .iter()
                .flat_map(|b| &b.instrs)
                .any(|i| matches!(i, Instr::Bin { op: found, .. } if *found == op)),
            "{source}: {}",
            ir.dump()
        );
    }
}

// -- short-circuiting operators ----------------------------------------

#[test]
fn tests_a_logical_operator_lowers_to_a_diamond() {
    let ir = lower_main("int x = 5;\nbool ok = x > 1 && x < 9;\nprint(ok);");
    let main = &ir.functions[0];
    assert_eq!(labels(main), vec!["entry0", "rhs1", "short2", "join3"]);
    // Both arms write the same register, which is what makes this an
    // expression: the join needs no phi.
    assert!(matches!(main.blocks[1].instrs.last(), Some(Instr::Cmp { dst, .. }) if *dst == main.blocks[2].instrs[0].def().unwrap()));
    assert!(matches!(main.blocks[2].instrs[0], Instr::Const { val: 0, .. }));
}

#[test]
fn tests_or_lays_its_short_circuit_out_first() {
    // The arm the branch continues into comes first, so the backend reaches
    // it by falling through: for `&&` that is the right operand, for `||`
    // the short circuit.
    let ir = lower_main("int x = 5;\nbool ok = x > 1 || x < 9;\nprint(ok);");
    let main = &ir.functions[0];
    assert_eq!(labels(main), vec!["entry0", "short1", "rhs2", "join3"]);
    assert!(matches!(main.blocks[1].instrs[0], Instr::Const { val: 1, .. }));
    match &main.blocks[0].term {
        Terminator::Branch { then_blk, else_blk, .. } => {
            assert_eq!((then_blk.block, else_blk.block), (BlockId(1), BlockId(2)));
        }
        other => panic!("expected a branch, got {other:?}"),
    }
}

#[test]
fn tests_a_left_operand_that_settles_the_answer_drops_the_right_one() {
    // Not an optimisation but the semantics: `f` must not be called.
    let ir = lower_src(
        "fn f() -> bool {\n  return true;\n}\nfn main() {\n  print(false && f());\n}",
    );
    let main = ir.functions.iter().find(|f| f.name == "main").expect("main survives");
    assert_eq!(labels(main), vec!["entry0"]);
    assert!(
        matches!(main.blocks[0].instrs[0], Instr::Print { val: Value::Const(0), .. }),
        "{}",
        ir.dump()
    );
    // Nothing calls `f` any more, so it is pruned along with unused ones.
    assert!(!ir.functions.iter().any(|f| f.name == "f"), "{}", ir.dump());
}

#[test]
fn tests_a_left_operand_that_settles_nothing_leaves_only_the_right_one() {
    // `true && e` is `e`: no branch, no temporary, no constant.
    let ir = lower_main("int x = 5;\nprint(true && x > 1);");
    let main = &ir.functions[0];
    assert_eq!(labels(main), vec!["entry0"]);
    assert!(matches!(main.blocks[0].instrs[1], Instr::Cmp { .. }), "{}", ir.dump());
}

#[test]
fn tests_logic_between_literals_is_folded_all_the_way() {
    for (source, expected) in
        [("print(true || false);", 1), ("print(true && false);", 0), ("print(1 < 2 && 3 < 4);", 1)]
    {
        let ir = lower_main(source);
        let main = &ir.functions[0];
        assert_eq!(main.blocks[0].instrs.len(), 1, "{source}: {}", ir.dump());
        assert!(
            matches!(main.blocks[0].instrs[0], Instr::Print { val: Value::Const(v), .. } if v == expected),
            "{source}: {}",
            ir.dump()
        );
    }
}

#[test]
fn tests_a_logical_operator_may_be_a_condition_of_its_own() {
    // The branch belongs to the block the condition *ended* in, which for a
    // short-circuiting operator is its join rather than the loop header.
    let ir = lower_main("int i = 0;\nwhile (i < 3 && i != 2) {\n  i = i + 1;\n}\nprint(i);");
    let main = &ir.functions[0];
    assert_eq!(labels(main), vec!["entry0", "loop1", "rhs2", "short3", "join4", "body5", "done6"]);
    // The loop is still a loop: the body jumps back to the header, not to
    // the join the condition finished in.
    assert!(matches!(main.blocks[5].term, Terminator::Jump(Target { block: BlockId(1), .. })));
}

// -- break and continue ------------------------------------------------

#[test]
fn tests_break_jumps_to_the_block_after_the_loop() {
    let ir = lower_main("while (true) {\n  break;\n}\nprint(1);");
    let main = &ir.functions[0];
    // The block the `break` left was terminated by the loop on its way out,
    // and the unreachable block opened after it is gone.
    assert_eq!(labels(main), vec!["entry0", "loop1", "body2", "done3"]);
    assert!(matches!(main.blocks[2].term, Terminator::Jump(Target { block: BlockId(3), .. })));
}

#[test]
fn tests_continue_in_a_while_jumps_back_to_the_header() {
    let ir = lower_main("int i = 0;\nwhile (i < 3) {\n  i = i + 1;\n  continue;\n}\nprint(i);");
    let main = &ir.functions[0];
    // A `while` has no step, so its header *is* its latch and no extra
    // block appears.
    assert_eq!(labels(main), vec!["entry0", "loop1", "body2", "done3"]);
    assert!(matches!(main.blocks[2].term, Terminator::Jump(Target { block: BlockId(1), .. })));
}

#[test]
fn tests_continue_in_a_for_runs_the_step_on_its_way_past() {
    // The whole reason the step needs a block: skipping it would leave the
    // counter alone and the loop would never end.
    let ir = lower_main("for (int i = 0; i < 3; i = i + 1) {\n  continue;\n}");
    let main = &ir.functions[0];
    assert_eq!(labels(main), vec!["entry0", "loop1", "body2", "step3", "done4"]);
    assert!(matches!(main.blocks[3].instrs[0], Instr::Bin { op: BinOp::Add, .. }));
    assert!(matches!(main.blocks[2].term, Terminator::Jump(Target { block: BlockId(3), .. })));
    assert!(matches!(main.blocks[3].term, Terminator::Jump(Target { block: BlockId(1), .. })));
}

#[test]
fn tests_a_for_without_a_continue_needs_no_step_block() {
    // Which is what keeps a plain `for` lowering to exactly the `while` it
    // desugars into.
    let ir = lower_main("for (int i = 0; i < 3; i = i + 1) {\n  print(i);\n}");
    assert_eq!(labels(&ir.functions[0]), vec!["entry0", "loop1", "body2", "done3"]);
}

#[test]
fn tests_a_continue_in_a_nested_loop_belongs_to_that_loop() {
    // The inner `while` takes the `continue`, so the outer `for` still has
    // none of its own and stays step-block free.
    let ir = lower_main(
        "for (int i = 0; i < 3; i = i + 1) {\n  while (i < 2) {\n    i = i + 1;\n    continue;\n  }\n}",
    );
    let labels = labels(&ir.functions[0]);
    assert!(!labels.iter().any(|l| l.starts_with("step")), "{labels:?}");
}

#[test]
fn tests_break_leaves_only_the_innermost_loop() {
    let ir = lower_main(
        "while (true) {\n  while (true) {\n    break;\n  }\n  print(1);\n  break;\n}",
    );
    let main = &ir.functions[0];
    // The inner `break` lands where the inner loop leaves, which is where
    // the `print` still runs — not at the outer loop's exit.
    let done: Vec<usize> =
        main.blocks.iter().enumerate().filter(|(_, b)| b.kind == BlockKind::Done).map(|(i, _)| i).collect();
    assert_eq!(done.len(), 2, "{}", ir.dump());
    let inner_exit = done[0];
    assert!(
        main.blocks[inner_exit].instrs.iter().any(|i| matches!(i, Instr::Print { .. })),
        "{}",
        ir.dump()
    );
}

#[test]
fn tests_code_after_a_loop_jump_is_pruned() {
    let ir = lower_main("while (true) {\n  break;\n  print(1);\n}");
    assert!(
        !ir.functions[0].blocks.iter().flat_map(|b| &b.instrs).any(|i| matches!(i, Instr::Print { .. })),
        "{}",
        ir.dump()
    );
}

#[test]
fn tests_literal_operands_stay_immediates() {
    // `x` is unknown, so the addition survives — but the 2 next to it is
    // still an operand rather than a register of its own.
    let ir = lower_main("int x = 1;\nprint(x + 2);");
    let main = &ir.functions[0];
    assert!(
        main.blocks[0]
            .instrs
            .iter()
            .any(|i| matches!(i, Instr::Bin { rhs: Value::Const(2), .. })),
        "{}",
        ir.dump()
    );
}

#[test]
fn tests_arithmetic_between_literals_is_done_at_compile_time() {
    let ir = lower_main("print(1 + 2 * 3);");
    let main = &ir.functions[0];
    // The whole tree collapses into the operand of the print: no `add`, no
    // `mul`, and no register to hold the answer either.
    assert_eq!(main.blocks[0].instrs.len(), 1, "{}", ir.dump());
    assert!(
        matches!(main.blocks[0].instrs[0], Instr::Print { val: Value::Const(7), .. }),
        "{}",
        ir.dump()
    );
}

#[test]
fn tests_the_folder_refuses_every_answer_the_machine_would_refuse() {
    // Today `sema` rejects all of these before lowering is ever reached, so
    // this is a unit test rather than a program: it keeps the folder from
    // becoming the stage that invents an answer, should the two ever come
    // to see a different set of constants.
    for (op, a, b) in [
        (BinOp::Add, i64::MAX, 1),
        (BinOp::Sub, i64::MIN, 1),
        (BinOp::Mul, i64::MAX, 2),
        (BinOp::Div, 1, 0),
        (BinOp::Rem, 1, 0),
        (BinOp::Div, i64::MIN, -1),
        // 0 on paper, and still refused: the machine gets there through the
        // division whose quotient does not fit.
        (BinOp::Rem, i64::MIN, -1),
    ] {
        assert_eq!(
            fold_bin(Num::Int, op, Value::Const(a), Value::Const(b)),
            None,
            "{op:?} {a}, {b}"
        );
    }
}

#[test]
fn tests_an_operation_the_machine_accepts_is_still_folded() {
    for (op, a, b, expected) in [
        (BinOp::Add, 2, 3, 5),
        (BinOp::Sub, 2, 3, -1),
        (BinOp::Mul, 6, 7, 42),
        (BinOp::Div, 17, 5, 3),
        (BinOp::Rem, 17, 5, 2),
        // The largest each operator can produce, one step short of refusing.
        (BinOp::Add, i64::MAX - 1, 1, i64::MAX),
        (BinOp::Sub, i64::MIN + 1, 1, i64::MIN),
    ] {
        assert_eq!(
            fold_bin(Num::Int, op, Value::Const(a), Value::Const(b)),
            Some(expected),
            "{op:?} {a}, {b}"
        );
    }
}

#[test]
fn tests_a_comparison_between_literals_is_folded_too() {
    let ir = lower_main("bool b = 1 < 2;\nprint(b);");
    assert!(
        matches!(ir.functions[0].blocks[0].instrs[0], Instr::Const { val: 1, .. }),
        "{}",
        ir.dump()
    );
}

#[test]
fn tests_a_function_nothing_calls_is_dropped() {
    let ir = lower_src(
        "fn used() -> int {\n  return 1;\n}\n\
         fn unused() -> int {\n  return 2;\n}\n\
         fn main() {\n  print(used());\n}",
    );
    let names: Vec<&str> = ir.functions.iter().map(|f| f.name.as_str()).collect();
    assert_eq!(names, vec!["used", "main"]);
}

#[test]
fn tests_dropping_a_function_renumbers_the_calls_that_survive() {
    // `unused` sits between the entry point and its callee, so every
    // `FuncId` after it shifts down by one.
    let ir = lower_src(
        "fn unused() {\n}\n\
         fn helper() -> int {\n  return 7;\n}\n\
         fn main() {\n  print(helper());\n}",
    );
    let main = ir.functions.iter().find(|f| f.name == "main").expect("main survives");
    let Instr::Call { callee, .. } = &main.blocks[0].instrs[0] else { panic!("a call") };
    assert_eq!(ir.function(*callee).name, "helper");
}

#[test]
fn tests_a_function_only_an_unused_one_calls_goes_too() {
    let ir = lower_src(
        "fn deep() -> int {\n  return 1;\n}\n\
         fn unused() -> int {\n  return deep();\n}\n\
         fn main() {\n}",
    );
    let names: Vec<&str> = ir.functions.iter().map(|f| f.name.as_str()).collect();
    assert_eq!(names, vec!["main"]);
}

#[test]
fn tests_recursion_keeps_a_function_alive_through_itself() {
    let ir = lower_src(
        "fn fib(int n) -> int {\n  if (n < 2) {\n    return n;\n  }\n  \
         return fib(n - 1) + fib(n - 2);\n}\n\
         fn main() {\n  print(fib(5));\n}",
    );
    assert!(ir.functions.iter().any(|f| f.name == "fib"), "{}", ir.dump());
}

#[test]
fn tests_bools_lower_to_integer_constants() {
    let ir = lower_main("bool ready = true;\nbool done = false;\nprint(ready);\nprint(done);");
    assert_eq!(
        body_dump(&ir),
        [
            "entry0:\n",
            "  0  %ready = const 1\n",
            "  1  %done = const 0\n",
            "  2  print bool %ready\n",
            "  3  print bool %done\n",
            "  4  return\n",
        ].concat()
    );
}

#[test]
fn tests_a_printed_bool_literal_stays_an_immediate() {
    let ir = lower_main("print(false);");
    let main = &ir.functions[0];
    assert_eq!(main.blocks[0].instrs.len(), 1);
    assert!(matches!(
        main.blocks[0].instrs[0],
        Instr::Print { ty: Ty::Bool, val: Value::Const(0), .. }
    ));
}

#[test]
fn tests_shadowed_variables_get_distinct_registers() {
    let ir = lower_main("int i = 1;\nif (true) {\n  int i = 2;\n  print(i);\n}\nprint(i);");
    let names = &ir.functions[0].vreg_names;
    assert!(names.contains(&"i".to_string()));
    assert!(names.contains(&"i.1".to_string()));
}

#[test]
fn tests_identical_strings_are_interned_once() {
    let ir = lower_main("string a = \"hi\";\nstring b = \"hi\";\nprint(a);\nprint(b);");
    assert_eq!(ir.strings.len(), 1);
}

#[test]
fn tests_a_literal_is_interned_as_characters() {
    let ir = lower_main("string s = \"é\";\nprint(s);");
    assert_eq!(ir.strings[0], vec!['é']);
}

/// A literal that is only ever *written* never becomes a string at all.
///
/// The two tables answer different questions: `strings` holds values the
/// program can index and join, laid out as characters four bytes each;
/// `texts` holds bytes `printf` is handed. A literal that goes straight out
/// needs no run-time form, and so is not given one — which is what makes
/// `print("hi")` cost one call and no memory.
#[test]
fn tests_a_literal_that_is_only_printed_becomes_text_rather_than_a_string() {
    let ir = lower_main("print(\"é\");");
    assert!(ir.strings.is_empty(), "{:?}", ir.strings);
    assert_eq!(ir.texts, vec!["é".to_string()]);
}

/// Every instruction a function lowered to, flattened.
fn instrs(ir: &Program) -> Vec<&Instr> {
    ir.functions[0].blocks.iter().flat_map(|b| &b.instrs).collect()
}

#[test]
fn tests_joining_two_strings_becomes_a_call_and_not_an_add() {
    let ir = lower_main("string a = \"x\";\nprint(a + a);");
    assert!(
        instrs(&ir)
            .iter()
            .any(|i| matches!(i, Instr::RtCall { callee: Runtime::Concat, .. })),
        "{}",
        ir.dump()
    );
    assert!(!instrs(&ir).iter().any(|i| matches!(i, Instr::Bin { .. })), "{}", ir.dump());
}

#[test]
fn tests_comparing_two_strings_asks_the_runtime_rather_than_the_processor() {
    let ir = lower_main("string a = \"x\";\nprint(a == a);");
    let lowered = instrs(&ir);
    assert!(
        lowered.iter().any(|i| matches!(i, Instr::RtCall { callee: Runtime::StrEq, .. })),
        "{}",
        ir.dump()
    );
    // `!=` is the same routine read the other way round, so it costs one
    // comparison against zero and not a second routine.
    let ir = lower_main("string a = \"x\";\nprint(a != a);");
    let lowered = instrs(&ir);
    assert!(lowered.iter().any(|i| matches!(i, Instr::RtCall { callee: Runtime::StrEq, .. })));
    assert!(lowered.iter().any(|i| matches!(i, Instr::Cmp { op: CmpOp::Eq, .. })));
}

#[test]
fn tests_an_arrays_length_is_a_constant_and_a_strings_is_a_load() {
    let ir = lower_main("int[3] xs = [1, 2, 3];\nprint(len(xs));");
    assert!(!instrs(&ir).iter().any(|i| matches!(i, Instr::Count { .. })), "{}", ir.dump());

    let ir = lower_main("print(len(\"abc\"));");
    assert!(instrs(&ir).iter().any(|i| matches!(i, Instr::Count { .. })), "{}", ir.dump());
}

#[test]
fn tests_a_constant_index_into_a_string_is_still_checked() {
    // An array's length is part of its type, so `sema` settled the index
    // and the `Elem` carries a constant length the backend can drop the
    // check for. A string's length is a load, so there is nothing to settle.
    let ir = lower_main("int[3] xs = [1, 2, 3];\nprint(xs[1]);");
    let lengths: Vec<&Value> = instrs(&ir)
        .iter()
        .filter_map(|i| match i {
            Instr::Elem { len, .. } => Some(len),
            _ => None,
        })
        .collect();
    assert!(lengths.iter().all(|len| matches!(len, Value::Const(_))), "{}", ir.dump());

    let ir = lower_main("print(\"abc\"[1]);");
    let lengths: Vec<&Value> = instrs(&ir)
        .iter()
        .filter_map(|i| match i {
            Instr::Elem { len, .. } => Some(len),
            _ => None,
        })
        .collect();
    assert_eq!(lengths.len(), 1);
    assert!(matches!(lengths[0], Value::Reg(_)), "{}", ir.dump());
}

#[test]
fn tests_a_code_point_and_its_character_are_the_same_value() {
    // `int(c)` moves nothing: a character *is* its code point. Only the
    // direction that can fail costs an instruction.
    let ir = lower_main("char c = 'a';\nprint(int(c));");
    assert!(!instrs(&ir).iter().any(|i| matches!(i, Instr::RtCall { .. })), "{}", ir.dump());

    let ir = lower_main("int n = 65;\nprint(char(n));");
    assert!(
        instrs(&ir)
            .iter()
            .any(|i| matches!(i, Instr::RtCall { callee: Runtime::CheckChar, .. })),
        "{}",
        ir.dump()
    );
}

/// Every runtime routine a lowering reached.
fn routines(ir: &Program) -> Vec<Runtime> {
    instrs(ir)
        .iter()
        .filter_map(|i| match i {
            Instr::RtCall { callee, .. } => Some(*callee),
            _ => None,
        })
        .collect()
}

/// The proof `append` rests on, read off the IR: which shapes get it and
/// which fall back to an ordinary join.
///
/// The negative half matters more than the positive one. Getting this wrong
/// in the permissive direction would lengthen a string somebody else is
/// holding — so every one of these is a case the analysis has to refuse.
#[test]
fn tests_a_string_is_grown_in_place_only_where_nothing_else_can_hold_it() {
    let grows = |src: &str| {
        let program = format!(
            "class Box {{ string text; }}\n\
             fn keep(string s) -> string {{ return s; }}\n\
             fn main() {{\n{src}\n}}\n"
        );
        routines(&lower_src(&program)).contains(&Runtime::Append)
    };

    // The shape it exists for, and the chain that is how a line is written.
    assert!(grows("string s = \"\";\ns = s + \"x\";\nprint(s);"));
    assert!(grows("string s = \"\";\ns = s + string(1) + \",\";\nprint(s);"));
    // Built by a conversion or by reading, which are blocks of their own.
    assert!(grows("string s = string(1);\ns = s + \"x\";\nprint(s);"));

    // Another name for it, taken anywhere in the function — before or
    // after, since the analysis is not a flow one and does not pretend to
    // be.
    assert!(!grows("string s = \"a\";\nstring t = s;\ns = s + \"x\";\nprint(t);"));
    assert!(!grows("string s = \"a\";\ns = s + \"x\";\nstring t = s;\nprint(t);"));
    // Handed to a function, put in a list, put in an object, returned.
    assert!(!grows("string s = \"a\";\nprint(keep(s));\ns = s + \"x\";"));
    assert!(!grows(
        "string s = \"a\";\nstring[] all = [];\npush(all, s);\ns = s + \"x\";\nprint(s);"
    ));
    assert!(!grows(
        "string s = \"a\";\nBox b = Box { text: s };\ns = s + \"x\";\nprint(b.text);"
    ));
    // Given a value that already had a name.
    assert!(!grows(
        "string o = \"a\" + \"b\";\nstring s = o;\ns = s + \"x\";\nprint(s);"
    ));
    // Given the answer of a call, which may be anybody's.
    assert!(!grows("string s = keep(\"a\");\ns = s + \"x\";\nprint(s);"));
    // Prepending cannot grow a block where it stands.
    assert!(!grows("string s = \"a\";\ns = \"x\" + s;\nprint(s);"));
    // A piece that reads the variable: appending one at a time would let
    // the second piece see what the first one wrote.
    assert!(!grows(
        "string s = \"a\";\ns = s + string(len(s)) + \"!\";\nprint(s);"
    ));

    // A parameter is the caller's string, whatever the body does with it.
    let ir = lower_src(
        "fn grow(string s) -> string {\n  s = s + \"x\";\n  return s;\n}\n\
         fn main() {\n  print(grow(\"a\"));\n}\n",
    );
    assert!(!routines(&ir).contains(&Runtime::Append), "{}", ir.dump());
}

/// A copy is only followed by a fix-up where the type says one can be
/// needed, so a program whose classes hold nothing but numbers carries
/// none of the machinery.
#[test]
fn tests_only_a_copy_that_can_share_is_followed_by_a_fixup() {
    let fixups = |ir: &Program| {
        ir.functions
            .iter()
            .flat_map(|f| &f.blocks)
            .flat_map(|b| &b.instrs)
            .filter(|i| matches!(i, Instr::Fixup { .. }))
            .count()
    };

    // Nothing in a `Point` is anybody else's, so its bytes are the whole
    // of it.
    let plain = lower_src(
        "class Point { int x; }\n\
         fn main() {\n  Point a = Point { x: 1 };\n  Point b = a;\n  print(b.x);\n}\n",
    );
    assert_eq!(fixups(&plain), 0, "{}", plain.dump());

    // A list field, and the copy has to be told to go and get its own.
    let sharing = lower_src(
        "class Bag { int[] items; }\n\
         fn main() {\n  Bag a = Bag { items: [1] };\n  Bag b = a;\n  \
         print(len(b.items));\n}\n",
    );
    assert_eq!(fixups(&sharing), 1, "{}", sharing.dump());

    // An array of them is one fix-up over the run rather than one each:
    // the copy was one `CopyBytes`, and this is its other half.
    let array = lower_src(
        "class Bag { int[] items; }\n\
         fn main() {\n  Bag[2] a = [Bag { items: [1] }, Bag { items: [2] }];\n  \
         Bag[2] b = a;\n  print(len(b[0].items));\n}\n",
    );
    let run = instrs(&array)
        .into_iter()
        .find_map(|i| match i {
            Instr::Fixup { count, stride, .. } => Some((*count, *stride)),
            _ => None,
        })
        .expect("the array copy has one");
    assert_eq!(run, (Value::Const(2), 16), "two objects, sixteen bytes apart");
}

#[test]
fn tests_assigning_a_list_copies_it_and_passing_one_does_not() {
    // The whole of "assignment copies, never aliases" for the one mutable
    // thing in the language, in two lowerings.
    let ir = lower_main("int[] a = [1];\nint[] b = a;\nprint(len(b));");
    assert!(routines(&ir).contains(&Runtime::ListClone), "{}", ir.dump());

    let ir = lower_src(
        "fn f(int[] xs) -> int {\n  return len(xs);\n}\n\
         fn main() {\n  int[] a = [1];\n  print(f(a));\n}\n",
    );
    let calls: Vec<Runtime> = ir
        .functions
        .iter()
        .flat_map(|f| &f.blocks)
        .flat_map(|b| &b.instrs)
        .filter_map(|i| match i {
            Instr::RtCall { callee, .. } => Some(*callee),
            _ => None,
        })
        .collect();
    assert!(!calls.contains(&Runtime::ListClone), "a parameter borrows: {}", ir.dump());
}

#[test]
fn tests_a_freshly_built_list_moves_in_rather_than_being_copied() {
    // A literal is nobody else's already, so there is nothing to copy.
    let ir = lower_main("int[] a = [1, 2];\nprint(len(a));");
    assert!(!routines(&ir).contains(&Runtime::ListClone), "{}", ir.dump());
    assert!(routines(&ir).contains(&Runtime::ListNew), "{}", ir.dump());
}

#[test]
fn tests_returning_a_borrowed_list_copies_it_at_the_return() {
    // Copied here rather than at the call site, which is what lets every
    // caller treat a returned list as its own.
    let ir = lower_src(
        "fn f(int[] xs) -> int[] {\n  return xs;\n}\nfn main() {\n  print(len(f([1])));\n}\n",
    );
    let returned: Vec<Runtime> = ir.functions[0]
        .blocks
        .iter()
        .flat_map(|b| &b.instrs)
        .filter_map(|i| match i {
            Instr::RtCall { callee, .. } => Some(*callee),
            _ => None,
        })
        .collect();
    assert!(returned.contains(&Runtime::ListClone), "{}", ir.dump());
}

#[test]
fn tests_push_writes_the_new_address_back_where_the_list_is_named() {
    let ir = lower_main("int[] a = [];\npush(a, 1);\nprint(len(a));");
    let pushes: Vec<&Instr> = instrs(&ir)
        .into_iter()
        .filter(|i| matches!(i, Instr::RtCall { callee: Runtime::ListPush, .. }))
        .collect();
    assert_eq!(pushes.len(), 1);
    // The list's own register is both what goes in and what comes back.
    let Instr::RtCall { dst: Some(dst), args, .. } = pushes[0] else { panic!("a push") };
    assert_eq!(args[0], Value::Reg(*dst), "{}", ir.dump());
}

#[test]
fn tests_a_list_of_objects_is_measured_in_whole_objects() {
    // The routines walk the elements rather than reading one, so how wide
    // an element is has to travel with every call — and the addressing has
    // to scale by the same number.
    let ir = lower_src(
        "class Point {\n  int x;\n  int y;\n}\n\
         fn main() {\n  Point[] ps = [Point { x: 1, y: 2 }];\n  print(ps[0].x);\n}\n",
    );
    // A vtable pointer and two fields.
    let width = Value::Const(24);
    let new = instrs(&ir)
        .into_iter()
        .find(|i| matches!(i, Instr::RtCall { callee: Runtime::ListNew, .. }))
        .expect("the literal builds one");
    let Instr::RtCall { args, .. } = new else { panic!("a call") };
    assert_eq!(args[1], width, "{}", ir.dump());
    assert!(
        instrs(&ir).iter().any(|i| matches!(i, Instr::Elem { scale: 24, .. })),
        "{}",
        ir.dump()
    );
}

#[test]
fn tests_pushing_an_object_hands_over_where_it_is() {
    // An element too big for a register cannot travel in one, so the push
    // that takes an address is a different routine — the compiler knows
    // which from the element's type, and the runtime is not left to guess
    // from a width that an object of one word would make ambiguous.
    let ir = lower_src(
        "class Point {\n  int x;\n}\n\
         fn main() {\n  Point[] ps = [];\n  push(ps, Point { x: 1 });\n  \
         print(len(ps));\n}\n",
    );
    assert!(routines(&ir).contains(&Runtime::ListPushBig), "{}", ir.dump());
    assert!(!routines(&ir).contains(&Runtime::ListPush), "{}", ir.dump());

    // A register-sized element still goes through the plain one.
    let ir = lower_main("int[] xs = [];\npush(xs, 1);\nprint(len(xs));");
    assert!(routines(&ir).contains(&Runtime::ListPush), "{}", ir.dump());
    assert!(!routines(&ir).contains(&Runtime::ListPushBig), "{}", ir.dump());
}

#[test]
fn tests_a_builtin_call_becomes_a_routine_and_not_a_function_call() {
    // There is no body to compile and no `FuncId` to name, so the ordinary
    // call instruction could not carry it.
    let ir = lower_main("print(read_line());");
    assert!(routines(&ir).contains(&Runtime::ReadLine), "{}", ir.dump());
    assert!(!instrs(&ir).iter().any(|i| matches!(i, Instr::Call { .. })), "{}", ir.dump());

    // Discarded on its own, which is a line skipped.
    let ir = lower_main("read_line();");
    let calls: Vec<&Instr> = instrs(&ir)
        .into_iter()
        .filter(|i| matches!(i, Instr::RtCall { callee: Runtime::ReadLine, dst: None, .. }))
        .collect();
    assert_eq!(calls.len(), 1, "{}", ir.dump());

    // A built-in that takes something is no different: the argument is
    // lowered where it stands and travels as an operand.
    let ir = lower_main("print(is_int(\"42\"));");
    assert!(routines(&ir).contains(&Runtime::IsInt), "{}", ir.dump());
    assert!(!instrs(&ir).iter().any(|i| matches!(i, Instr::Call { .. })), "{}", ir.dump());
}

#[test]
fn tests_a_list_index_is_checked_against_a_length_it_has_to_load() {
    let ir = lower_main("int[] a = [1, 2];\nprint(a[0]);");
    assert!(instrs(&ir).iter().any(|i| matches!(i, Instr::Count { .. })), "{}", ir.dump());
}

#[test]
fn tests_a_constant_character_needs_no_check_at_run_time() {
    let ir = lower_main("print(char(65));");
    assert!(!instrs(&ir).iter().any(|i| matches!(i, Instr::RtCall { .. })), "{}", ir.dump());
}

// -- functions ---------------------------------------------------------

#[test]
fn tests_each_function_gets_its_own_graph_and_registers() {
    let ir = lower_src(
        "fn add(int a, int b) -> int {\n  return a + b;\n}\nfn main() {\n  print(add(1, 2));\n}",
    );
    assert_eq!(ir.functions.len(), 2);
    // Both functions number their blocks and registers from zero.
    assert_eq!(ir.functions[0].blocks[0].label(), "entry0");
    assert_eq!(ir.functions[1].blocks[0].label(), "entry0");
    assert_eq!(ir.functions[0].params, vec![VReg(0), VReg(1)]);
}

#[test]
fn tests_parameters_are_defined_at_the_top_of_the_entry_block() {
    let ir = lower_src("fn f(int a, int b) {\n  print(a);\n}\nfn main() {\n  f(1, 2);\n}");
    let f = &ir.functions[0];
    assert!(matches!(f.blocks[0].instrs[0], Instr::Param { index: 0, .. }));
    assert!(matches!(f.blocks[0].instrs[1], Instr::Param { index: 1, .. }));
}

#[test]
fn tests_a_call_lowers_to_an_instruction_naming_its_callee() {
    let ir = lower_src(
        "fn add(int a, int b) -> int {\n  return a + b;\n}\nfn main() {\n  print(add(1, 2));\n}",
    );
    let main = &ir.functions[1];
    match &main.blocks[0].instrs[0] {
        Instr::Call { dst: Some(_), callee, args } => {
            assert_eq!(*callee, FuncId(0));
            assert_eq!(args, &vec![Value::Const(1), Value::Const(2)]);
        }
        other => panic!("expected a call, got {other:?}"),
    }
}

#[test]
fn tests_a_call_statement_discards_its_result() {
    let ir = lower_src("fn f() -> int {\n  return 1;\n}\nfn main() {\n  f();\n}");
    assert!(matches!(ir.functions[1].blocks[0].instrs[0], Instr::Call { dst: None, .. }));
}

#[test]
fn tests_a_return_carries_its_value_in_the_terminator() {
    let ir = lower_src("fn one() -> int {\n  return 1;\n}\nfn main() {\n  print(one());\n}");
    assert!(matches!(
        ir.functions[0].blocks[0].term,
        Terminator::Return(Some(Value::Const(1)))
    ));
}

#[test]
fn tests_a_bare_return_carries_nothing() {
    let ir = lower_src("fn f() {\n  return;\n}\nfn main() {\n  f();\n}");
    assert!(matches!(ir.functions[0].blocks[0].term, Terminator::Return(None)));
}

#[test]
fn tests_code_after_a_return_is_pruned() {
    // The `print` is lowered into a block nothing jumps to, and that block
    // never reaches the backend.
    let ir = lower_src("fn f() {\n  return;\n  print(1);\n}\nfn main() {\n  f();\n}");
    assert_eq!(labels(&ir.functions[0]), vec!["entry0"]);
}

#[test]
fn tests_an_if_where_both_arms_return_keeps_both_returns() {
    // The join block is unreachable and goes away, but the two `return`
    // terminators must survive the pruning intact.
    let ir = lower_src(
        "fn f(int n) -> int {\n  if (n < 2) {\n    return 1;\n  } else {\n    \
         return 2;\n  }\n}\nfn main() {\n  print(f(1));\n}",
    );
    let f = &ir.functions[0];
    assert_eq!(labels(f), vec!["entry0", "then1", "else2"]);
    assert!(matches!(f.blocks[1].term, Terminator::Return(Some(Value::Const(1)))));
    assert!(matches!(f.blocks[2].term, Terminator::Return(Some(Value::Const(2)))));
}

#[test]
fn tests_a_recursive_call_names_its_own_function() {
    let ir = lower_src(
        "fn fib(int n) -> int {\n  if (n < 2) {\n    return n;\n  } else {\n    \
         return fib(n - 1) + fib(n - 2);\n  }\n}\nfn main() {\n  print(fib(10));\n}",
    );
    let fib = &ir.functions[0];
    let calls: Vec<&Instr> = fib
        .blocks
        .iter()
        .flat_map(|b| &b.instrs)
        .filter(|i| matches!(i, Instr::Call { .. }))
        .collect();
    assert_eq!(calls.len(), 2);
    for call in calls {
        assert!(matches!(call, Instr::Call { callee: FuncId(0), .. }), "{call:?}");
    }
}

#[test]
fn tests_strings_are_shared_across_functions() {
    let ir = lower_src(
        "fn a() {\n  string s = \"hi\";\n  print(s);\n}\n\
         fn main() {\n  string s = \"hi\";\n  print(s);\n  a();\n}",
    );
    assert_eq!(ir.strings.len(), 1);
}

/// And so is literal text, which has a table of its own for the same reason.
#[test]
fn tests_text_is_shared_across_functions() {
    let ir = lower_src(
        "fn a() {\n  print(\"hi\");\n}\nfn main() {\n  print(\"hi\");\n  a();\n}",
    );
    assert_eq!(ir.texts.len(), 1);
}

#[test]
fn tests_a_value_used_by_a_call_does_not_cross_it_but_a_nested_one_does() {
    // In `f(g(1), 2)` the result of `g` is live across nothing; in
    // `f(g(1), h(2))` it is live across the call to `h`.
    let ir = lower_src(
        "fn g(int n) -> int {\n  return n;\n}\nfn h(int n) -> int {\n  return n;\n}\n\
         fn f(int a, int b) -> int {\n  return a;\n}\n\
         fn main() {\n  print(f(g(1), h(2)));\n}",
    );
    let main = ir.functions.last().unwrap();
    let calls = main.blocks[0].instrs.iter().filter(|i| i.is_call()).count();
    assert_eq!(calls, 4); // g, h, f, and the print
}

// -- writing things out -------------------------------------------------

/// A format lowers to one write per piece, in the order they were written.
#[test]
fn tests_a_format_lowers_to_one_write_per_piece() {
    let ir = lower_main("int n = 7;\nprintln(\"a %d b\", n);");
    assert_eq!(
        body_dump(&ir),
        [
            "entry0:\n",
            "  0  %n = const 7\n",
            "  1  print text0 \"a \"\n",
            "  2  print int %n\n",
            "  3  print text1 \" b\\n\"\n",
            "  4  return\n",
        ].concat()
    );
}

/// `println` is `print` with a newline, and this is where the two become
/// one statement. The newline joins the text in front of it rather than
/// costing a write of its own.
#[test]
fn tests_a_trailing_newline_joins_the_text_before_it() {
    assert_eq!(lower_main("println(\"done\");").texts, vec!["done\n".to_string()]);
    assert_eq!(lower_main("print(\"done\");").texts, vec!["done".to_string()]);
}

/// When a format ends in a specifier there is no text to join the newline
/// to — so the *value* ends the line instead, and nothing is written after
/// it. That is what makes `println(n)` one call rather than two.
#[test]
fn tests_a_value_that_ends_a_line_says_so_rather_than_being_followed_by_one() {
    let ir = lower_main("int n = 1;\nprintln(n);\nprintln(n);");
    assert!(ir.texts.is_empty(), "there is nothing left to write: {:?}", ir.texts);
    let printed: Vec<bool> = ir.functions[0].blocks[0]
        .instrs
        .iter()
        .filter_map(|i| match i {
            Instr::Print { newline, .. } => Some(*newline),
            _ => None,
        })
        .collect();
    assert_eq!(printed, vec![true, true]);
}

/// Only the *last* write of a `println` ends the line, and a `print` never
/// does — which is the whole of what the flag means.
#[test]
fn tests_only_the_last_value_of_a_println_ends_the_line() {
    let ends: Vec<bool> = ["println(\"%d %d\", 1, 2);", "print(\"%d %d\", 1, 2);"]
        .iter()
        .flat_map(|body| {
            lower_main(body).functions[0].blocks[0]
                .instrs
                .iter()
                .filter_map(|i| match i {
                    Instr::Print { newline, .. } => Some(*newline),
                    _ => None,
                })
                .collect::<Vec<bool>>()
        })
        .collect();
    assert_eq!(ends, vec![false, true, false, false]);
}

/// A `println()` with nothing to write is a blank line, and must not reach
/// back and attach its line ending to the write *before* it.
#[test]
fn tests_an_empty_println_is_a_blank_line_and_not_a_second_one_on_the_line_above() {
    let ir = lower_main("println(1);\nprintln();\nprintln(2);");
    assert_eq!(ir.texts, vec!["\n".to_string()], "the blank line is its own write");
    let kinds: Vec<&str> = ir.functions[0].blocks[0]
        .instrs
        .iter()
        .filter_map(|i| match i {
            Instr::Print { newline: true, .. } => Some("println"),
            Instr::Print { .. } => Some("print"),
            Instr::PrintText { .. } => Some("text"),
            _ => None,
        })
        .collect();
    assert_eq!(kinds, vec!["println", "text", "println"]);
}

/// A `println` whose last part is text still ends the line with that text,
/// exactly as before: there is a piece to join the newline to.
#[test]
fn tests_a_println_ending_in_text_still_ends_the_line_with_the_text() {
    let ir = lower_main("int n = 1;\nprintln(\"n is %d.\", n);");
    assert_eq!(ir.texts, vec!["n is ".to_string(), ".\n".to_string()]);
    assert!(
        ir.functions[0].blocks[0]
            .instrs
            .iter()
            .all(|i| !matches!(i, Instr::Print { newline: true, .. })),
        "the text ends the line, so no value does"
    );
}

/// Every value is evaluated before anything is written.
///
/// A `print` is written like a call and read like one, so its arguments go
/// first — otherwise a call that writes something itself would land in the
/// middle of this line rather than before it.
#[test]
fn tests_the_values_are_evaluated_before_the_first_write() {
    let ir = lower_src(
        "fn f() -> int {\n  return 1;\n}\n\
         fn main() {\n  println(\"a %d b %d\", f(), f());\n}",
    );
    let main = ir.functions.iter().find(|f| f.name == "main").expect("main");
    let kinds: Vec<&str> = main.blocks[0]
        .instrs
        .iter()
        .filter_map(|i| match i {
            Instr::Call { .. } => Some("call"),
            Instr::Print { .. } => Some("print"),
            Instr::PrintText { .. } => Some("text"),
            _ => None,
        })
        .collect();
    // Six pieces, not seven: the format ends in a specifier, so the last
    // *value* ends the line and there is nothing to write after it.
    assert_eq!(kinds, vec!["call", "call", "text", "print", "text", "print"]);
    assert_eq!(ir.texts, vec!["a ".to_string(), " b ".to_string()]);
}

/// A `print` with nothing to write lowers to nothing at all; a `println`
/// with nothing to write lowers to the line ending alone.
#[test]
fn tests_writing_nothing_costs_nothing() {
    assert!(lower_main("print();").functions[0].blocks[0].instrs.is_empty());
    assert_eq!(lower_main("println();").texts, vec!["\n".to_string()]);
}

/// Text and strings are interned in separate tables because they are laid
/// out differently — and the same words in both roles land in both.
#[test]
fn tests_the_same_words_can_be_text_in_one_place_and_a_string_in_another() {
    let ir = lower_main("string s = \"hi\";\nprint(\"hi\");\nprint(s);");
    assert_eq!(ir.texts, vec!["hi".to_string()]);
    assert_eq!(ir.strings, vec![vec!['h', 'i']]);
}

// -- float ---------------------------------------------------------------

/// A float literal becomes the bits of its double, and the instructions
/// that read those bits say so. Nothing else in the IR changes shape.
#[test]
fn tests_a_float_travels_as_the_bits_of_its_double() {
    let ir = lower_main("float a = 1.5;\nfloat b = a * 2.0;\nprintln(b < a);");
    assert_eq!(
        body_dump(&ir),
        [
            "entry0:\n",
            "  0  %a = const 4609434218613702656\n",
            "  1  %b = mul.f %a, 2f\n",
            "  2  %t2 = cmp.f < %b, %a\n",
            "  3  println bool %t2\n",
            "  4  return\n",
        ].concat()
    );
    assert_eq!(f64::from_bits(4609434218613702656u64), 1.5);
}

/// Folding a float is done in `f64`, not on the bits, so the compiler and
/// the machine cannot come to different answers.
#[test]
fn tests_float_constants_fold_as_floats() {
    let ir = lower_main("println(1.5 + 2.25);");
    assert_eq!(body_dump(&ir), "entry0:\n  0  println float 3.75f\n  1  return\n");

    // Adding the two bit patterns as integers would answer this instead,
    // which is what makes the `num` on the instruction load-bearing.
    let wrong = f64::to_bits(1.5) + f64::to_bits(2.25);
    assert_ne!(wrong, f64::to_bits(3.75));
}

/// `-x` is a subtraction from **negative** zero. `0.0 - x` would answer
/// `+0.0` where `x` was `+0.0`, and the difference is invisible until
/// something divides by the result.
#[test]
fn tests_negating_a_float_subtracts_from_negative_zero() {
    let ir = lower_main("float a = 0.0;\nfloat b = -a;\nprintln(b);");
    assert!(body_dump(&ir).contains("%b = sub.f -0f, %a"), "{}", body_dump(&ir));
    assert_eq!(negate_const(Num::Float, 0.0f64.to_bits() as i64), (-0.0f64).to_bits() as i64);
}

/// A conversion that can be settled here is, and the one that cannot stays
/// an instruction — the same bargain `char(n)` strikes.
#[test]
fn tests_a_constant_conversion_is_settled_where_it_can_be() {
    // Both fold to a `const`, and neither leaves an instruction that could
    // stop the program.
    let up = body_dump(&lower_main("float f = float(3);\nprintln(f);"));
    assert!(up.contains("%f = const 4613937818241073152"), "{up}");
    let down = body_dump(&lower_main("int n = int(3.75);\nprintln(n);"));
    assert!(down.contains("%n = const 3"), "{down}");

    // What only the running program knows stays an instruction, and only in
    // the direction that can fail.
    let ir = lower_main("int n = 3;\nfloat f = float(n) / 2.0;\nprintln(int(f));");
    let dump = body_dump(&ir);
    assert!(dump.contains(" = int %"), "{dump}");
}

/// Float arithmetic answers whatever it is given — an infinity, a NaN — so
/// there is nothing to guard and nothing keeping a result nobody reads.
#[test]
fn tests_float_arithmetic_cannot_fail() {
    let division = |num| Instr::Bin {
        num,
        op: BinOp::Div,
        dst: VReg(0),
        lhs: Value::Reg(VReg(1)),
        rhs: Value::Reg(VReg(2)),
    };
    assert!(!division(Num::Float).can_fail());
    assert!(
        division(Num::Int).can_fail(),
        "an int division still has a zero divisor to worry about"
    );

    // Only one direction of the conversion can.
    let cast = |to| Instr::Cast { dst: VReg(0), to, src: Value::Reg(VReg(1)) };
    assert!(cast(Num::Int).can_fail());
    assert!(!cast(Num::Float).can_fail());
}

// -- the same programs, by where control goes --------------------------------

#[test]
fn ir_lowers_the_sample_program() {
    let ir = lower_main("int x = 10;\nint y = 20;\nstring s = \"hi\";\nprint(x + y);\nprint(s);");
    assert_eq!(
        body_dump(&ir),
        [
            "entry0:\n",
            "  0  %x = const 10\n",
            "  1  %y = const 20\n",
            "  2  %s = straddr str0\n",
            "  3  %t3 = add %x, %y\n",
            "  4  print int %t3\n",
            "  5  print string %s\n",
            "  6  return\n",
        ].concat()
    );
}

#[test]
fn ir_an_assignment_writes_the_variables_own_register() {
    // No `%n.1`: with control flow a variable must have one home, so the
    // second write targets the same register.
    let ir = lower_main("int n = 1;\nn = n + 41;\nprint(n);");
    assert_eq!(
        body_dump(&ir),
        [
            "entry0:\n",
            "  0  %n = const 1\n",
            "  1  %n = add %n, 41\n",
            "  2  print int %n\n",
            "  3  return\n",
        ].concat()
    );
}

#[test]
fn ir_an_if_produces_a_diamond() {
    let ir = lower_main("int n = 0;\nif (n < 1) {\n  n = 2;\n} else {\n  n = 3;\n}\nprint(n);");
    let main = &ir.functions[0];
    assert_eq!(labels(main), vec!["entry0", "then1", "else2", "join3"]);
    assert!(matches!(main.blocks[0].term, Terminator::Branch { .. }));
    assert!(matches!(main.blocks[1].term, Terminator::Jump(Target { block: BlockId(3), .. })));
    assert!(matches!(main.blocks[2].term, Terminator::Jump(Target { block: BlockId(3), .. })));
}

#[test]
fn ir_an_if_without_else_branches_straight_to_the_join() {
    let ir = lower_main("int n = 0;\nif (n < 1) {\n  n = 2;\n}\nprint(n);");
    let main = &ir.functions[0];
    assert_eq!(labels(main), vec!["entry0", "then1", "join2"]);
    match &main.blocks[0].term {
        Terminator::Branch { then_blk, else_blk, .. } => {
            assert_eq!((then_blk.block, else_blk.block), (BlockId(1), BlockId(2)));
        }
        other => panic!("expected a branch, got {other:?}"),
    }
}

#[test]
fn ir_a_while_loop_closes_a_back_edge() {
    let ir = lower_main("int i = 0;\nwhile (i < 3) {\n  i = i + 1;\n}\nprint(i);");
    let main = &ir.functions[0];
    assert_eq!(labels(main), vec!["entry0", "loop1", "body2", "done3"]);
    // The body jumps back to the header, which re-tests the condition.
    assert!(matches!(main.blocks[2].term, Terminator::Jump(Target { block: BlockId(1), .. })));
    assert!(matches!(main.blocks[0].term, Terminator::Jump(Target { block: BlockId(1), .. })));
}

#[test]
fn ir_a_for_loop_desugars_into_the_same_shape() {
    let with_for = lower_main("for (int i = 0; i < 3; i = i + 1) {\n  print(i);\n}");
    let with_while = lower_main("int i = 0;\nwhile (i < 3) {\n  print(i);\n  i = i + 1;\n}");
    assert_eq!(with_for.dump(), with_while.dump());
}

#[test]
fn ir_an_object_is_room_a_vtable_pointer_and_its_fields() {
    let ir = lower_src(
        "class Circle {\n  int r;\n  fn area(self) -> int { return self.r; }\n}\n\
         fn main() {\n  Circle c = Circle { r: 5 };\n  print(c.r);\n}",
    );
    let main = ir.functions.iter().find(|f| f.name == "main").expect("main survives");
    let text: Vec<String> =
        main.blocks[0].instrs.iter().map(|i| ir.instr_text(main, i)).collect();
    assert_eq!(
        text,
        vec![
            "%c = frame 0",
            "%t1 = vtable Circle",
            "store %c, %t1",
            "%t2 = field %c + 8",
            "store %t2, 5",
            "%t4 = field %c + 8",
            "%t3 = load %t4",
            "print int %t3",
        ]
    );
}

#[test]
fn ir_a_field_of_the_base_comes_before_one_of_the_subclass() {
    // The prefix rule, which is what makes an upcast free.
    let ir = lower_src(
        "class Base {\n  int a;\n}\nclass Derived : Base {\n  int b;\n}\n\
         fn main() {\n  Derived d = Derived { a: 1, b: 2 };\n  print(d.a + d.b);\n}",
    );
    let offsets: Vec<u32> =
        ir.table.class(ClassId(1)).fields.iter().map(|f| f.offset).collect();
    // The vtable pointer takes offset 0.
    assert_eq!(offsets, vec![8, 16]);
}

#[test]
fn ir_an_aggregate_field_is_its_address_rather_than_something_to_read() {
    // The rule an element already followed: a value too big for a register
    // *is* where it lives. Reading eight bytes out of `s.b` would produce
    // the inner object's vtable pointer, and writing through that would
    // land in the vtable rather than in the object.
    let ir = lower_src(
        "class Point {\n  int x;\n}\n\
         class Segment {\n  Point a;\n  Point b;\n}\n\
         fn main() {\n  \
         Segment s = Segment { a: Point { x: 1 }, b: Point { x: 2 } };\n  \
         s.b.x = 3;\n  \
         print(s.b.x);\n}",
    );
    // `b` starts past the whole of `a`, rather than one register after it.
    let offsets: Vec<u32> =
        ir.table.class(ClassId(1)).fields.iter().map(|f| f.offset).collect();
    assert_eq!(offsets, vec![8, 24]);

    let main = ir.functions.iter().find(|f| f.name == "main").expect("main survives");
    let loads =
        main.blocks[0].instrs.iter().filter(|i| matches!(i, Instr::Load { .. })).count();
    // One, and it is the `print`. Reaching `s.b` to write through it reads
    // nothing at all.
    assert_eq!(loads, 1, "{}", ir.dump());
}

#[test]
fn ir_writing_through_an_element_that_is_an_object_reaches_the_element() {
    let ir = lower_src(
        "class Point {\n  int x;\n}\n\
         fn main() {\n  \
         Point[2] ps = [Point { x: 1 }, Point { x: 2 }];\n  \
         ps[1].x = 7;\n  \
         print(ps[1].x);\n}",
    );
    let main = ir.functions.iter().find(|f| f.name == "main").expect("main survives");
    let loads =
        main.blocks[0].instrs.iter().filter(|i| matches!(i, Instr::Load { .. })).count();
    assert_eq!(loads, 1, "{}", ir.dump());
}

#[test]
fn ir_a_call_on_a_class_with_subclasses_goes_through_the_vtable() {
    let ir = lower_src(
        "class Shape {\n  fn area(self) -> int { return 0; }\n}\n\
         class Circle : Shape {\n  int r;\n  fn area(self) -> int { return self.r; }\n}\n\
         fn report(Shape s) {\n  print(s.area());\n}\n\
         fn main() {\n  report(Circle { r: 1 });\n}",
    );
    let report = ir.functions.iter().find(|f| f.name == "report").expect("report survives");
    assert!(
        report.blocks[0].instrs.iter().any(|i| matches!(i, Instr::CallVirtual { slot: 0, .. })),
        "{}",
        ir.dump()
    );
}

#[test]
fn ir_a_call_on_a_class_with_none_is_settled_at_compile_time() {
    // Whole-program compilation is what makes this knowable: nothing can
    // derive from `Point` afterwards, so there is one answer and no reason
    // to ask at run time.
    let ir = lower_src(
        "class Point {\n  int x;\n  fn get(self) -> int { return self.x; }\n}\n\
         fn main() {\n  Point p = Point { x: 1 };\n  print(p.get());\n}",
    );
    let main = ir.functions.iter().find(|f| f.name == "main").expect("main survives");
    assert!(
        !main.blocks[0].instrs.iter().any(|i| matches!(i, Instr::CallVirtual { .. })),
        "{}",
        ir.dump()
    );
    assert!(
        main.blocks[0].instrs.iter().any(|i| matches!(i, Instr::Call { .. })),
        "{}",
        ir.dump()
    );
}

#[test]
fn ir_a_subclass_vtable_is_its_base_with_the_overrides_replaced() {
    let ir = lower_src(
        "class Shape {\n  fn area(self) -> int { return 0; }\n  \
         fn name(self) -> string { return \"shape\"; }\n}\n\
         class Circle : Shape {\n  int r;\n  fn area(self) -> int { return self.r; }\n}\n\
         fn main() {\n  Circle c = Circle { r: 1 };\n  print(c.area());\n}",
    );
    // Same two slots in the same order; only the first was overridden.
    let shape = ir.table.class(ClassId(0));
    let circle = ir.table.class(ClassId(1));
    let names: Vec<&str> = circle.methods.iter().map(|m| m.name.as_str()).collect();
    assert_eq!(names, vec!["area", "name"]);
    assert_eq!(circle.methods[0].slot, shape.methods[0].slot);
    assert_ne!(circle.methods[0].function, shape.methods[0].function);
    assert_eq!(circle.methods[1].function, shape.methods[1].function);
}

#[test]
fn ir_storage_is_the_biggest_in_the_hierarchy() {
    // What will let a value of a base class hold any of its subclasses.
    let ir = lower_src(
        "class Shape {\n  fn area(self) -> int { return 0; }\n}\n\
         class Circle : Shape {\n  int r;\n  fn area(self) -> int { return self.r; }\n}\n\
         class Rect : Shape {\n  int w;\n  int h;\n  \
         fn area(self) -> int { return self.w; }\n}\n\
         fn main() {\n  Rect r = Rect { w: 1, h: 2 };\n  print(r.area());\n}",
    );
    // `Shape` is 8 on its own; the biggest thing that *is* one is `Rect`.
    assert_eq!(ir.table.class(ClassId(0)).size, 8);
    assert_eq!(ir.table.class(ClassId(0)).storage, 24);
    assert_eq!(ir.table.class(ClassId(2)).storage, 24);
}

#[test]
fn ir_a_method_is_named_after_its_class() {
    // Two classes may both have a `go`, so the flat list of callables has
    // to keep them apart — and so do their symbols.
    let ir = lower_src(
        "class A {\n  fn go(self) -> int { return 1; }\n}\n\
         class B {\n  fn go(self) -> int { return 2; }\n}\n\
         fn main() {\n  A a = A { };\n  B b = B { };\n  print(a.go() + b.go());\n}",
    );
    let names: Vec<&str> = ir.functions.iter().map(|f| f.name.as_str()).collect();
    assert!(names.contains(&"A$go"), "{names:?}");
    assert!(names.contains(&"B$go"), "{names:?}");
}

#[test]
fn ir_a_class_nothing_builds_keeps_none_of_its_methods() {
    // Making an object is what makes its methods callable, and the only
    // thing that does.
    let ir = lower_src(
        "class Used {\n  fn f(self) -> int { return 1; }\n}\n\
         class Unused {\n  fn f(self) -> int { return 2; }\n}\n\
         fn main() {\n  Used u = Used { };\n  print(u.f());\n}",
    );
    let names: Vec<&str> = ir.functions.iter().map(|f| f.name.as_str()).collect();
    assert!(names.contains(&"Used$f"), "{names:?}");
    assert!(!names.contains(&"Unused$f"), "{names:?}");
}

#[test]
fn ir_an_array_is_room_in_the_frame_and_a_store_per_element() {
    let ir = lower_main("int[3] xs = [10, 20, 30];\nprint(xs[0]);");
    assert_eq!(
        body_dump(&ir),
        [
            "entry0:\n",
            "  0  %xs = frame 0\n",
            "  1  %t1 = elem %xs[0] of 3 by 8\n",
            "  2  store %t1, 10\n",
            "  3  %t2 = elem %xs[1] of 3 by 8\n",
            "  4  store %t2, 20\n",
            "  5  %t3 = elem %xs[2] of 3 by 8\n",
            "  6  store %t3, 30\n",
            "  7  %t4 = elem %xs[0] of 3 by 8\n",
            "  8  %t5 = load %t4\n",
            "  9  print int %t5\n",
            " 10  return\n",
        ].concat()
    );
}

#[test]
fn ir_the_frame_is_sized_by_what_the_function_declared() {
    let ir = lower_main("int[3] a = [1, 2, 3];\nbool[2] b = [true, false];\nprint(a[0]);");
    // Two arrays, five elements, eight bytes each.
    assert_eq!(ir.functions[0].frame_bytes, 40);
    // And they do not overlap.
    let offsets: Vec<u32> = ir.functions[0].blocks[0]
        .instrs
        .iter()
        .filter_map(|i| match i {
            Instr::Frame { offset, .. } => Some(*offset),
            _ => None,
        })
        .collect();
    assert_eq!(offsets, vec![0, 24]);
}

/// A literal at a place that already has an address is built *there*.
///
/// Built in room of its own and copied, it would cost the room for the whole
/// call, whether or not anything still needed it, and a `CopyBytes` nobody asked
/// for.
#[test]
fn ir_a_literal_in_a_place_that_has_room_reserves_none_of_its_own() {
    let ir = lower_src(
        "class P { int[2] xs; }\nfn main() {\n  P p = P { xs: [1, 2] };\n  print(p.xs[0]);\n}",
    );
    let main = &ir.functions[0];
    // One reservation, for the object. The array goes inside it.
    let frames: Vec<u32> = main.blocks[0]
        .instrs
        .iter()
        .filter_map(|i| match i {
            Instr::Frame { offset, .. } => Some(*offset),
            _ => None,
        })
        .collect();
    assert_eq!(frames, vec![0], "the literal reserved room of its own: {}", ir.dump());
    // `P` is a vtable pointer and two ints, and that is the whole frame.
    assert_eq!(main.frame_bytes, 24);
    // And nothing is copied, because nothing was built anywhere else.
    assert!(
        !main.blocks[0].instrs.iter().any(|i| matches!(i, Instr::CopyBytes { .. })),
        "{}",
        ir.dump()
    );
}

/// The same literal *assigned* is not, because it may read what it is
/// overwriting.
#[test]
fn ir_a_literal_assigned_over_a_place_is_built_elsewhere_and_copied() {
    let ir = lower_main("int[2] a = [1, 2];\na = [a[1], a[0]];\nprint(a[0]);");
    let main = &ir.functions[0];
    assert!(
        main.blocks[0].instrs.iter().any(|i| matches!(i, Instr::CopyBytes { .. })),
        "the swap has to change all at once: {}",
        ir.dump()
    );
    // Two reservations: the variable, and the room the swap is built in.
    assert_eq!(main.frame_bytes, 32);
}

/// Two blocks that cannot be running at once share their room.
#[test]
fn ir_a_blocks_frame_goes_back_when_the_block_ends() {
    let shared = lower_main(
        "int n = 0;\nif (n == 0) {\n  int[3] a = [1, 2, 3];\n  n = a[0];\n}\n\
         else {\n  int[3] b = [4, 5, 6];\n  n = b[0];\n}\nprint(n);",
    );
    // Three ints, once, rather than once per arm.
    assert_eq!(shared.functions[0].frame_bytes, 24);

    // What is reserved is the most ever needed at *once*, so two arrays
    // that really are live together still get room each.
    let both = lower_main("int[3] a = [1, 2, 3];\nint[3] b = [4, 5, 6];\nprint(a[0] + b[0]);");
    assert_eq!(both.functions[0].frame_bytes, 48);
}

#[test]
fn ir_a_frame_no_stack_would_hold_is_refused() {
    let Err(errors) = try_lower(&arrays_worth(MAX_FRAME_BYTES + 1)) else {
        panic!("past the limit is past the limit");
    };
    assert_eq!(errors.len(), 1, "{errors:?}");
    assert!(errors[0].message.contains("needs too much stack"), "{:?}", errors[0]);
    // The caret goes on the function's name, which is the one place a
    // reader can act on: no single declaration is the culprit.
    assert!(errors[0].label.as_ref().is_some_and(|l| l.contains("262144")), "{:?}", errors[0]);
}

#[test]
fn ir_a_frame_that_only_just_fits_is_not() {
    let ir = try_lower(&arrays_worth(MAX_FRAME_BYTES)).expect("exactly the limit is allowed");
    assert_eq!(ir.functions[0].frame_bytes, MAX_FRAME_BYTES);
}

#[test]
fn ir_a_frame_is_measured_in_the_function_that_declares_it() {
    // Two functions of half the limit each. Neither is refused: a frame is
    // one call's, and these two are never on the stack at the same time
    // unless one calls the other — which is what the *runtime* check is
    // for, and it is a question about depth, not about size.
    let half = MAX_FRAME_BYTES / 2;
    let mut src = arrays_worth(half).replace("fn main()", "fn other()");
    src.push_str(&arrays_worth(half));
    try_lower(&src).expect("two half-sized frames are two frames, not one");
}

#[test]
fn ir_a_function_with_no_arrays_reserves_nothing() {
    assert_eq!(lower_main("int n = 1;\nprint(n);").functions[0].frame_bytes, 0);
}

#[test]
fn ir_len_is_a_constant_and_costs_nothing() {
    // It is a fact about the type, so nothing computes it.
    let ir = lower_main("int[4] xs = [1, 2, 3, 4];\nprint(len(xs));");
    let main = &ir.functions[0];
    assert!(
        matches!(main.blocks[0].instrs.last(), Some(Instr::Print { val: Value::Const(4), .. })),
        "{}",
        ir.dump()
    );
}

#[test]
fn ir_an_element_address_is_one_instruction_and_never_arithmetic() {
    // `base + index * 8` is an addressing mode, so it picks up none of the
    // overflow guards `Bin` carries.
    let ir = lower_main("int[3] xs = [1, 2, 3];\nint i = 1;\nprint(xs[i]);");
    let main = &ir.functions[0];
    let elems = main.blocks[0].instrs.iter().filter(|i| matches!(i, Instr::Elem { .. })).count();
    // Three to build it, one to read it.
    assert_eq!(elems, 4, "{}", ir.dump());
    assert!(
        !main.blocks[0]
            .instrs
            .iter()
            .any(|i| matches!(i, Instr::Bin { op: BinOp::Mul, .. })),
        "{}",
        ir.dump()
    );
}

#[test]
fn ir_writing_through_an_index_stores_rather_than_copying_a_register() {
    let ir = lower_main("int[2] xs = [1, 2];\nxs[1] = 7;\nprint(xs[1]);");
    let main = &ir.functions[0];
    // Two stores for the literal, one for the assignment.
    let stores = main.blocks[0].instrs.iter().filter(|i| matches!(i, Instr::Store { .. })).count();
    assert_eq!(stores, 3, "{}", ir.dump());
}

#[test]
fn ir_an_array_parameter_is_an_address_like_any_other_value() {
    let ir = lower_src(
        "fn first(int[2] xs) -> int {\n  return xs[0];\n}\n\
         fn main() {\n  int[2] xs = [1, 2];\n  print(first(xs));\n}",
    );
    let first = &ir.functions[0];
    // Nothing is copied in: the register holds the caller's address.
    assert!(matches!(first.blocks[0].instrs[0], Instr::Param { index: 0, .. }));
    assert!(!first.blocks.iter().flat_map(|b| &b.instrs).any(|i| matches!(i, Instr::Frame { .. })));
}

#[test]
fn ir_a_variant_lowers_to_its_tag_and_nothing_else() {
    // The whole representation: a variant is where it was written in the
    // declaration, so it is an immediate like any other integer.
    let ir = lower_colour("Colour c = Colour::Blue;\nprint(c);");
    assert_eq!(
        body_dump(&ir),
        [
            "entry0:\n",
            "  0  %c = const 2\n",
            "  1  print Colour %c\n",
            "  2  return\n",
        ].concat()
    );
}

#[test]
fn ir_a_variant_used_as_an_operand_stays_an_immediate() {
    let ir = lower_colour("Colour c = Colour::Red;\nprint(c == Colour::Green);");
    assert!(
        ir.functions[0].blocks[0]
            .instrs
            .iter()
            .any(|i| matches!(i, Instr::Cmp { rhs: Value::Const(1), .. })),
        "{}",
        ir.dump()
    );
}

#[test]
fn ir_a_match_tests_every_variant_but_the_last() {
    // Exhaustiveness pays for itself here: there is nowhere else for the
    // value to be, so the final test would always succeed.
    let ir = lower_colour(
        "Colour c = Colour::Red;\nmatch (c) {\n  Colour::Red => { print(1); }\n  \
         Colour::Green => { print(2); }\n  Colour::Blue => { print(3); }\n}",
    );
    let main = &ir.functions[0];
    assert_eq!(labels(main), vec!["entry0", "arm1", "case2", "arm3", "arm4", "join5"]);

    let comparisons = main
        .blocks
        .iter()
        .flat_map(|b| &b.instrs)
        .filter(|i| matches!(i, Instr::Cmp { .. }))
        .count();
    assert_eq!(comparisons, 2, "three variants need two tests: {}", ir.dump());
}

#[test]
fn ir_each_match_arm_reaches_the_same_join() {
    let ir = lower_colour(
        "Colour c = Colour::Red;\nmatch (c) {\n  Colour::Red => { print(1); }\n  \
         Colour::Green => { print(2); }\n  Colour::Blue => { print(3); }\n}\nprint(9);",
    );
    let main = &ir.functions[0];
    let join = BlockId(5);
    for arm in [1usize, 3, 4] {
        assert!(
            matches!(&main.blocks[arm].term, Terminator::Jump(target) if target.block == join),
            "arm {arm}: {}",
            ir.dump()
        );
    }
}

#[test]
fn ir_a_single_variant_enum_needs_no_test_at_all() {
    // There is only one place the value can be, so the scrutinee's block
    // simply runs into the one arm.
    let ir = lower_src(
        "enum Unit { Only }\nfn main() {\n  Unit u = Unit::Only;\n  \
         match (u) {\n    Unit::Only => { print(1); }\n  }\n}",
    );
    let main = &ir.functions[0];
    assert!(
        !main.blocks.iter().flat_map(|b| &b.instrs).any(|i| matches!(i, Instr::Cmp { .. })),
        "{}",
        ir.dump()
    );
    assert!(matches!(main.blocks[0].term, Terminator::Jump(_)), "{}", ir.dump());
}

#[test]
fn ir_the_arms_are_matched_in_the_order_they_are_written() {
    // Not in declaration order: an arm's tag comes from its own pattern.
    let ir = lower_colour(
        "Colour c = Colour::Red;\nmatch (c) {\n  Colour::Blue => { print(1); }\n  \
         Colour::Red => { print(2); }\n  Colour::Green => { print(3); }\n}",
    );
    let tags: Vec<i64> = ir.functions[0]
        .blocks
        .iter()
        .flat_map(|b| &b.instrs)
        .filter_map(|i| match i {
            Instr::Cmp { rhs: Value::Const(tag), .. } => Some(*tag),
            _ => None,
        })
        .collect();
    assert_eq!(tags, vec![2, 0], "{}", ir.dump());
}

#[test]
fn ir_a_loop_jump_inside_an_arm_belongs_to_the_loop() {
    let ir = lower_src(
        "enum A { X, Y }\nfn main() {\n  while (true) {\n    A a = A::X;\n    \
         match (a) {\n      A::X => { break; }\n      A::Y => { print(1); }\n    }\n  }\n}",
    );
    // The `break` leaves for the loop's exit, not the match's join.
    let main = &ir.functions[0];
    let done = main
        .blocks
        .iter()
        .position(|b| b.kind == BlockKind::Done)
        .expect("the loop has an exit");
    assert!(
        main.blocks.iter().any(|b| matches!(&b.term, Terminator::Jump(t) if t.block.0 as usize == done)),
        "{}",
        ir.dump()
    );
}

#[test]
fn ir_every_value_arm_writes_the_same_register() {
    // The trick `&&` already plays, with more arms: a non-SSA IR lets the
    // join read one register that several blocks wrote.
    let ir = lower_colour(
        "string s = match (Colour::Red) {\n  Colour::Red => \"a\",\n  \
         Colour::Green => \"b\",\n  Colour::Blue => \"c\",\n};\nprint(s);",
    );
    let main = &ir.functions[0];
    let written: Vec<VReg> = main
        .blocks
        .iter()
        .filter(|b| b.kind == BlockKind::Arm)
        .filter_map(|b| b.instrs.last().and_then(|i| i.def()))
        .collect();
    assert_eq!(written.len(), 3, "{}", ir.dump());
    assert!(written.windows(2).all(|w| w[0] == w[1]), "{written:?} in {}", ir.dump());
}

#[test]
fn ir_a_block_arm_writes_nothing_and_never_reaches_the_join() {
    let ir = lower_src(
        "enum A { X, Y }\nfn f(A a) -> int {\n  return match (a) {\n    A::X => 1,\n    \
         A::Y => { print(9); return 2; }\n  };\n}\nfn main() {\n  print(f(A::X));\n}",
    );
    let f = &ir.functions[0];
    // The diverging arm ends in a `return`, not a jump to the join.
    assert!(
        f.blocks
            .iter()
            .filter(|b| b.kind == BlockKind::Arm)
            .any(|b| matches!(b.term, Terminator::Return(Some(_)))),
        "{}",
        ir.dump()
    );
}

#[test]
fn ir_a_match_statement_needs_no_destination() {
    // Nothing reads it, so no temporary is spent on one.
    let ir = lower_colour(
        "match (Colour::Red) {\n  Colour::Red => { print(1); }\n  \
         Colour::Green => { print(2); }\n  Colour::Blue => { print(3); }\n}",
    );
    let main = &ir.functions[0];
    let joins: Vec<&Block> =
        main.blocks.iter().filter(|b| b.kind == BlockKind::Join).collect();
    assert_eq!(joins.len(), 1);
    assert!(joins[0].instrs.is_empty(), "{}", ir.dump());
}

#[test]
fn ir_a_match_expression_folds_its_arms_like_any_other_operand() {
    // A variant arm is a constant, so it never reaches a register at all.
    let ir = lower_src(
        "enum A { X, Y }\nfn main() {\n  A a = match (A::X) {\n    A::X => A::Y,\n    \
         A::Y => A::X,\n  };\n  print(a);\n}",
    );
    let main = &ir.functions[0];
    assert!(
        main.blocks
            .iter()
            .flat_map(|b| &b.instrs)
            .any(|i| matches!(i, Instr::Const { val: 1, .. })),
        "{}",
        ir.dump()
    );
}

#[test]
fn ir_the_enums_travel_with_the_program() {
    // The backend needs the names to print one, and the dump to name the
    // type; the values themselves need nothing.
    let ir = lower_colour("print(Colour::Red);");
    assert_eq!(ir.table.enums.len(), 1);
    assert_eq!(ir.table.enums[0].name, "Colour");
    assert_eq!(ir.table.enums[0].variants.iter().map(|v| v.name.as_str()).collect::<Vec<&str>>(), vec!["Red", "Green", "Blue"]);
}

#[test]
fn ir_negating_a_comparison_inverts_it_in_place() {
    // `!(a < b)` is `a >= b`: one comparison, not a comparison plus a
    // comparison against its result.
    let ir = lower_main("int a = 1;\nint b = 2;\nprint(!(a < b));");
    let comparisons: Vec<&Instr> = ir.functions[0].blocks[0]
        .instrs
        .iter()
        .filter(|i| matches!(i, Instr::Cmp { .. }))
        .collect();
    assert_eq!(comparisons.len(), 1, "{}", ir.dump());
    assert!(matches!(comparisons[0], Instr::Cmp { op: CmpOp::Ge, .. }), "{comparisons:?}");
}

#[test]
fn ir_negating_anything_else_compares_it_against_zero() {
    // There is no `not` instruction, and none is needed: `!ok` *is*
    // `ok == 0`, which folds and fuses like any other comparison.
    let ir = lower_main("bool ok = true;\nint n = 1;\nok = n > 0;\nprint(!ok);");
    assert!(
        ir.functions[0].blocks[0]
            .instrs
            .iter()
            .any(|i| matches!(i, Instr::Cmp { op: CmpOp::Eq, rhs: Value::Const(0), .. })),
        "{}",
        ir.dump()
    );
}

#[test]
fn ir_negating_a_literal_is_folded() {
    let ir = lower_main("print(!true);");
    let main = &ir.functions[0];
    assert_eq!(main.blocks[0].instrs.len(), 1, "{}", ir.dump());
    assert!(matches!(main.blocks[0].instrs[0], Instr::Print { val: Value::Const(0), .. }));
}

#[test]
fn ir_a_remainder_between_literals_is_computed_at_compile_time() {
    let ir = lower_main("print(17 % 5);");
    let main = &ir.functions[0];
    assert!(
        matches!(main.blocks[0].instrs[0], Instr::Print { val: Value::Const(2), .. }),
        "{}",
        ir.dump()
    );
}

#[test]
fn ir_an_operation_on_something_unknown_stays_an_instruction() {
    // The other half: what the folder cannot answer becomes a guarded
    // instruction, and the program fails where it was written.
    for (source, op) in [
        ("int z = 0;\nprint(1 / z);", BinOp::Div),
        ("int z = 0;\nprint(1 % z);", BinOp::Rem),
        ("int n = 1;\nprint(n + 9223372036854775807);", BinOp::Add),
    ] {
        let ir = lower_main(source);
        assert!(
            ir.functions[0]
                .blocks
                .iter()
                .flat_map(|b| &b.instrs)
                .any(|i| matches!(i, Instr::Bin { op: found, .. } if *found == op)),
            "{source}: {}",
            ir.dump()
        );
    }
}

#[test]
fn ir_a_logical_operator_lowers_to_a_diamond() {
    let ir = lower_main("int x = 5;\nbool ok = x > 1 && x < 9;\nprint(ok);");
    let main = &ir.functions[0];
    assert_eq!(labels(main), vec!["entry0", "rhs1", "short2", "join3"]);
    // Both arms write the same register, which is what makes this an
    // expression: the join needs no phi.
    assert!(matches!(main.blocks[1].instrs.last(), Some(Instr::Cmp { dst, .. }) if *dst == main.blocks[2].instrs[0].def().unwrap()));
    assert!(matches!(main.blocks[2].instrs[0], Instr::Const { val: 0, .. }));
}

#[test]
fn ir_or_lays_its_short_circuit_out_first() {
    // The arm the branch continues into comes first, so the backend reaches
    // it by falling through: for `&&` that is the right operand, for `||`
    // the short circuit.
    let ir = lower_main("int x = 5;\nbool ok = x > 1 || x < 9;\nprint(ok);");
    let main = &ir.functions[0];
    assert_eq!(labels(main), vec!["entry0", "short1", "rhs2", "join3"]);
    assert!(matches!(main.blocks[1].instrs[0], Instr::Const { val: 1, .. }));
    match &main.blocks[0].term {
        Terminator::Branch { then_blk, else_blk, .. } => {
            assert_eq!((then_blk.block, else_blk.block), (BlockId(1), BlockId(2)));
        }
        other => panic!("expected a branch, got {other:?}"),
    }
}

#[test]
fn ir_a_left_operand_that_settles_the_answer_drops_the_right_one() {
    // Not an optimisation but the semantics: `f` must not be called.
    let ir = lower_src(
        "fn f() -> bool {\n  return true;\n}\nfn main() {\n  print(false && f());\n}",
    );
    let main = ir.functions.iter().find(|f| f.name == "main").expect("main survives");
    assert_eq!(labels(main), vec!["entry0"]);
    assert!(
        matches!(main.blocks[0].instrs[0], Instr::Print { val: Value::Const(0), .. }),
        "{}",
        ir.dump()
    );
    // Nothing calls `f` any more, so it is pruned along with unused ones.
    assert!(!ir.functions.iter().any(|f| f.name == "f"), "{}", ir.dump());
}

#[test]
fn ir_a_left_operand_that_settles_nothing_leaves_only_the_right_one() {
    // `true && e` is `e`: no branch, no temporary, no constant.
    let ir = lower_main("int x = 5;\nprint(true && x > 1);");
    let main = &ir.functions[0];
    assert_eq!(labels(main), vec!["entry0"]);
    assert!(matches!(main.blocks[0].instrs[1], Instr::Cmp { .. }), "{}", ir.dump());
}

#[test]
fn ir_logic_between_literals_is_folded_all_the_way() {
    for (source, expected) in
        [("print(true || false);", 1), ("print(true && false);", 0), ("print(1 < 2 && 3 < 4);", 1)]
    {
        let ir = lower_main(source);
        let main = &ir.functions[0];
        assert_eq!(main.blocks[0].instrs.len(), 1, "{source}: {}", ir.dump());
        assert!(
            matches!(main.blocks[0].instrs[0], Instr::Print { val: Value::Const(v), .. } if v == expected),
            "{source}: {}",
            ir.dump()
        );
    }
}

#[test]
fn ir_a_logical_operator_may_be_a_condition_of_its_own() {
    // The branch belongs to the block the condition *ended* in, which for a
    // short-circuiting operator is its join rather than the loop header.
    let ir = lower_main("int i = 0;\nwhile (i < 3 && i != 2) {\n  i = i + 1;\n}\nprint(i);");
    let main = &ir.functions[0];
    assert_eq!(labels(main), vec!["entry0", "loop1", "rhs2", "short3", "join4", "body5", "done6"]);
    // The loop is still a loop: the body jumps back to the header, not to
    // the join the condition finished in.
    assert!(matches!(main.blocks[5].term, Terminator::Jump(Target { block: BlockId(1), .. })));
}

#[test]
fn ir_break_jumps_to_the_block_after_the_loop() {
    let ir = lower_main("while (true) {\n  break;\n}\nprint(1);");
    let main = &ir.functions[0];
    // The block the `break` left was terminated by the loop on its way out,
    // and the unreachable block opened after it is gone.
    assert_eq!(labels(main), vec!["entry0", "loop1", "body2", "done3"]);
    assert!(matches!(main.blocks[2].term, Terminator::Jump(Target { block: BlockId(3), .. })));
}

#[test]
fn ir_continue_in_a_while_jumps_back_to_the_header() {
    let ir = lower_main("int i = 0;\nwhile (i < 3) {\n  i = i + 1;\n  continue;\n}\nprint(i);");
    let main = &ir.functions[0];
    // A `while` has no step, so its header *is* its latch and no extra
    // block appears.
    assert_eq!(labels(main), vec!["entry0", "loop1", "body2", "done3"]);
    assert!(matches!(main.blocks[2].term, Terminator::Jump(Target { block: BlockId(1), .. })));
}

#[test]
fn ir_continue_in_a_for_runs_the_step_on_its_way_past() {
    // The whole reason the step needs a block: skipping it would leave the
    // counter alone and the loop would never end.
    let ir = lower_main("for (int i = 0; i < 3; i = i + 1) {\n  continue;\n}");
    let main = &ir.functions[0];
    assert_eq!(labels(main), vec!["entry0", "loop1", "body2", "step3", "done4"]);
    assert!(matches!(main.blocks[3].instrs[0], Instr::Bin { op: BinOp::Add, .. }));
    assert!(matches!(main.blocks[2].term, Terminator::Jump(Target { block: BlockId(3), .. })));
    assert!(matches!(main.blocks[3].term, Terminator::Jump(Target { block: BlockId(1), .. })));
}

#[test]
fn ir_a_for_without_a_continue_needs_no_step_block() {
    // Which is what keeps a plain `for` lowering to exactly the `while` it
    // desugars into.
    let ir = lower_main("for (int i = 0; i < 3; i = i + 1) {\n  print(i);\n}");
    assert_eq!(labels(&ir.functions[0]), vec!["entry0", "loop1", "body2", "done3"]);
}

#[test]
fn ir_a_continue_in_a_nested_loop_belongs_to_that_loop() {
    // The inner `while` takes the `continue`, so the outer `for` still has
    // none of its own and stays step-block free.
    let ir = lower_main(
        "for (int i = 0; i < 3; i = i + 1) {\n  while (i < 2) {\n    i = i + 1;\n    continue;\n  }\n}",
    );
    let labels = labels(&ir.functions[0]);
    assert!(!labels.iter().any(|l| l.starts_with("step")), "{labels:?}");
}

#[test]
fn ir_break_leaves_only_the_innermost_loop() {
    let ir = lower_main(
        "while (true) {\n  while (true) {\n    break;\n  }\n  print(1);\n  break;\n}",
    );
    let main = &ir.functions[0];
    // The inner `break` lands where the inner loop leaves, which is where
    // the `print` still runs — not at the outer loop's exit.
    let done: Vec<usize> =
        main.blocks.iter().enumerate().filter(|(_, b)| b.kind == BlockKind::Done).map(|(i, _)| i).collect();
    assert_eq!(done.len(), 2, "{}", ir.dump());
    let inner_exit = done[0];
    assert!(
        main.blocks[inner_exit].instrs.iter().any(|i| matches!(i, Instr::Print { .. })),
        "{}",
        ir.dump()
    );
}

#[test]
fn ir_code_after_a_loop_jump_is_pruned() {
    let ir = lower_main("while (true) {\n  break;\n  print(1);\n}");
    assert!(
        !ir.functions[0].blocks.iter().flat_map(|b| &b.instrs).any(|i| matches!(i, Instr::Print { .. })),
        "{}",
        ir.dump()
    );
}

#[test]
fn ir_literal_operands_stay_immediates() {
    // `x` is unknown, so the addition survives — but the 2 next to it is
    // still an operand rather than a register of its own.
    let ir = lower_main("int x = 1;\nprint(x + 2);");
    let main = &ir.functions[0];
    assert!(
        main.blocks[0]
            .instrs
            .iter()
            .any(|i| matches!(i, Instr::Bin { rhs: Value::Const(2), .. })),
        "{}",
        ir.dump()
    );
}

#[test]
fn ir_arithmetic_between_literals_is_done_at_compile_time() {
    let ir = lower_main("print(1 + 2 * 3);");
    let main = &ir.functions[0];
    // The whole tree collapses into the operand of the print: no `add`, no
    // `mul`, and no register to hold the answer either.
    assert_eq!(main.blocks[0].instrs.len(), 1, "{}", ir.dump());
    assert!(
        matches!(main.blocks[0].instrs[0], Instr::Print { val: Value::Const(7), .. }),
        "{}",
        ir.dump()
    );
}

#[test]
fn ir_the_folder_refuses_every_answer_the_machine_would_refuse() {
    // Today `sema` rejects all of these before lowering is ever reached, so
    // this is a unit test rather than a program: it keeps the folder from
    // becoming the stage that invents an answer, should the two ever come
    // to see a different set of constants.
    for (op, a, b) in [
        (BinOp::Add, i64::MAX, 1),
        (BinOp::Sub, i64::MIN, 1),
        (BinOp::Mul, i64::MAX, 2),
        (BinOp::Div, 1, 0),
        (BinOp::Rem, 1, 0),
        (BinOp::Div, i64::MIN, -1),
        // 0 on paper, and still refused: the machine gets there through the
        // division whose quotient does not fit.
        (BinOp::Rem, i64::MIN, -1),
    ] {
        assert_eq!(
            fold_bin(Num::Int, op, Value::Const(a), Value::Const(b)),
            None,
            "{op:?} {a}, {b}"
        );
    }
}

#[test]
fn ir_an_operation_the_machine_accepts_is_still_folded() {
    for (op, a, b, expected) in [
        (BinOp::Add, 2, 3, 5),
        (BinOp::Sub, 2, 3, -1),
        (BinOp::Mul, 6, 7, 42),
        (BinOp::Div, 17, 5, 3),
        (BinOp::Rem, 17, 5, 2),
        // The largest each operator can produce, one step short of refusing.
        (BinOp::Add, i64::MAX - 1, 1, i64::MAX),
        (BinOp::Sub, i64::MIN + 1, 1, i64::MIN),
    ] {
        assert_eq!(
            fold_bin(Num::Int, op, Value::Const(a), Value::Const(b)),
            Some(expected),
            "{op:?} {a}, {b}"
        );
    }
}

#[test]
fn ir_a_comparison_between_literals_is_folded_too() {
    let ir = lower_main("bool b = 1 < 2;\nprint(b);");
    assert!(
        matches!(ir.functions[0].blocks[0].instrs[0], Instr::Const { val: 1, .. }),
        "{}",
        ir.dump()
    );
}

#[test]
fn ir_a_function_nothing_calls_is_dropped() {
    let ir = lower_src(
        "fn used() -> int {\n  return 1;\n}\n\
         fn unused() -> int {\n  return 2;\n}\n\
         fn main() {\n  print(used());\n}",
    );
    let names: Vec<&str> = ir.functions.iter().map(|f| f.name.as_str()).collect();
    assert_eq!(names, vec!["used", "main"]);
}

#[test]
fn ir_dropping_a_function_renumbers_the_calls_that_survive() {
    // `unused` sits between the entry point and its callee, so every
    // `FuncId` after it shifts down by one.
    let ir = lower_src(
        "fn unused() {\n}\n\
         fn helper() -> int {\n  return 7;\n}\n\
         fn main() {\n  print(helper());\n}",
    );
    let main = ir.functions.iter().find(|f| f.name == "main").expect("main survives");
    let Instr::Call { callee, .. } = &main.blocks[0].instrs[0] else { panic!("a call") };
    assert_eq!(ir.function(*callee).name, "helper");
}

#[test]
fn ir_a_function_only_an_unused_one_calls_goes_too() {
    let ir = lower_src(
        "fn deep() -> int {\n  return 1;\n}\n\
         fn unused() -> int {\n  return deep();\n}\n\
         fn main() {\n}",
    );
    let names: Vec<&str> = ir.functions.iter().map(|f| f.name.as_str()).collect();
    assert_eq!(names, vec!["main"]);
}

#[test]
fn ir_recursion_keeps_a_function_alive_through_itself() {
    let ir = lower_src(
        "fn fib(int n) -> int {\n  if (n < 2) {\n    return n;\n  }\n  \
         return fib(n - 1) + fib(n - 2);\n}\n\
         fn main() {\n  print(fib(5));\n}",
    );
    assert!(ir.functions.iter().any(|f| f.name == "fib"), "{}", ir.dump());
}

#[test]
fn ir_bools_lower_to_integer_constants() {
    let ir = lower_main("bool ready = true;\nbool done = false;\nprint(ready);\nprint(done);");
    assert_eq!(
        body_dump(&ir),
        [
            "entry0:\n",
            "  0  %ready = const 1\n",
            "  1  %done = const 0\n",
            "  2  print bool %ready\n",
            "  3  print bool %done\n",
            "  4  return\n",
        ].concat()
    );
}

#[test]
fn ir_a_printed_bool_literal_stays_an_immediate() {
    let ir = lower_main("print(false);");
    let main = &ir.functions[0];
    assert_eq!(main.blocks[0].instrs.len(), 1);
    assert!(matches!(
        main.blocks[0].instrs[0],
        Instr::Print { ty: Ty::Bool, val: Value::Const(0), .. }
    ));
}

#[test]
fn ir_shadowed_variables_get_distinct_registers() {
    let ir = lower_main("int i = 1;\nif (true) {\n  int i = 2;\n  print(i);\n}\nprint(i);");
    let names = &ir.functions[0].vreg_names;
    assert!(names.contains(&"i".to_string()));
    assert!(names.contains(&"i.1".to_string()));
}

#[test]
fn ir_identical_strings_are_interned_once() {
    let ir = lower_main("string a = \"hi\";\nstring b = \"hi\";\nprint(a);\nprint(b);");
    assert_eq!(ir.strings.len(), 1);
}

#[test]
fn ir_a_literal_is_interned_as_characters() {
    let ir = lower_main("string s = \"é\";\nprint(s);");
    assert_eq!(ir.strings[0], vec!['é']);
}

/// A literal that is only ever *written* never becomes a string at all.
///
/// The two tables answer different questions: `strings` holds values the
/// program can index and join, laid out as characters four bytes each;
/// `texts` holds bytes `printf` is handed. A literal that goes straight out
/// needs no run-time form, and so is not given one — which is what makes
/// `print("hi")` cost one call and no memory.
#[test]
fn ir_a_literal_that_is_only_printed_becomes_text_rather_than_a_string() {
    let ir = lower_main("print(\"é\");");
    assert!(ir.strings.is_empty(), "{:?}", ir.strings);
    assert_eq!(ir.texts, vec!["é".to_string()]);
}

#[test]
fn ir_joining_two_strings_becomes_a_call_and_not_an_add() {
    let ir = lower_main("string a = \"x\";\nprint(a + a);");
    assert!(
        instrs(&ir)
            .iter()
            .any(|i| matches!(i, Instr::RtCall { callee: Runtime::Concat, .. })),
        "{}",
        ir.dump()
    );
    assert!(!instrs(&ir).iter().any(|i| matches!(i, Instr::Bin { .. })), "{}", ir.dump());
}

#[test]
fn ir_comparing_two_strings_asks_the_runtime_rather_than_the_processor() {
    let ir = lower_main("string a = \"x\";\nprint(a == a);");
    let lowered = instrs(&ir);
    assert!(
        lowered.iter().any(|i| matches!(i, Instr::RtCall { callee: Runtime::StrEq, .. })),
        "{}",
        ir.dump()
    );
    // `!=` is the same routine read the other way round, so it costs one
    // comparison against zero and not a second routine.
    let ir = lower_main("string a = \"x\";\nprint(a != a);");
    let lowered = instrs(&ir);
    assert!(lowered.iter().any(|i| matches!(i, Instr::RtCall { callee: Runtime::StrEq, .. })));
    assert!(lowered.iter().any(|i| matches!(i, Instr::Cmp { op: CmpOp::Eq, .. })));
}

#[test]
fn ir_an_arrays_length_is_a_constant_and_a_strings_is_a_load() {
    let ir = lower_main("int[3] xs = [1, 2, 3];\nprint(len(xs));");
    assert!(!instrs(&ir).iter().any(|i| matches!(i, Instr::Count { .. })), "{}", ir.dump());

    let ir = lower_main("print(len(\"abc\"));");
    assert!(instrs(&ir).iter().any(|i| matches!(i, Instr::Count { .. })), "{}", ir.dump());
}

#[test]
fn ir_a_constant_index_into_a_string_is_still_checked() {
    // An array's length is part of its type, so `sema` settled the index
    // and the `Elem` carries a constant length the backend can drop the
    // check for. A string's length is a load, so there is nothing to settle.
    let ir = lower_main("int[3] xs = [1, 2, 3];\nprint(xs[1]);");
    let lengths: Vec<&Value> = instrs(&ir)
        .iter()
        .filter_map(|i| match i {
            Instr::Elem { len, .. } => Some(len),
            _ => None,
        })
        .collect();
    assert!(lengths.iter().all(|len| matches!(len, Value::Const(_))), "{}", ir.dump());

    let ir = lower_main("print(\"abc\"[1]);");
    let lengths: Vec<&Value> = instrs(&ir)
        .iter()
        .filter_map(|i| match i {
            Instr::Elem { len, .. } => Some(len),
            _ => None,
        })
        .collect();
    assert_eq!(lengths.len(), 1);
    assert!(matches!(lengths[0], Value::Reg(_)), "{}", ir.dump());
}

#[test]
fn ir_a_code_point_and_its_character_are_the_same_value() {
    // `int(c)` moves nothing: a character *is* its code point. Only the
    // direction that can fail costs an instruction.
    let ir = lower_main("char c = 'a';\nprint(int(c));");
    assert!(!instrs(&ir).iter().any(|i| matches!(i, Instr::RtCall { .. })), "{}", ir.dump());

    let ir = lower_main("int n = 65;\nprint(char(n));");
    assert!(
        instrs(&ir)
            .iter()
            .any(|i| matches!(i, Instr::RtCall { callee: Runtime::CheckChar, .. })),
        "{}",
        ir.dump()
    );
}

/// The proof `append` rests on, read off the IR: which shapes get it and
/// which fall back to an ordinary join.
///
/// The negative half matters more than the positive one. Getting this wrong
/// in the permissive direction would lengthen a string somebody else is
/// holding — so every one of these is a case the analysis has to refuse.
#[test]
fn ir_a_string_is_grown_in_place_only_where_nothing_else_can_hold_it() {
    let grows = |src: &str| {
        let program = format!(
            "class Box {{ string text; }}\n\
             fn keep(string s) -> string {{ return s; }}\n\
             fn main() {{\n{src}\n}}\n"
        );
        routines(&lower_src(&program)).contains(&Runtime::Append)
    };

    // The shape it exists for, and the chain that is how a line is written.
    assert!(grows("string s = \"\";\ns = s + \"x\";\nprint(s);"));
    assert!(grows("string s = \"\";\ns = s + string(1) + \",\";\nprint(s);"));
    // Built by a conversion or by reading, which are blocks of their own.
    assert!(grows("string s = string(1);\ns = s + \"x\";\nprint(s);"));

    // Another name for it, taken anywhere in the function — before or
    // after, since the analysis is not a flow one and does not pretend to
    // be.
    assert!(!grows("string s = \"a\";\nstring t = s;\ns = s + \"x\";\nprint(t);"));
    assert!(!grows("string s = \"a\";\ns = s + \"x\";\nstring t = s;\nprint(t);"));
    // Handed to a function, put in a list, put in an object, returned.
    assert!(!grows("string s = \"a\";\nprint(keep(s));\ns = s + \"x\";"));
    assert!(!grows(
        "string s = \"a\";\nstring[] all = [];\npush(all, s);\ns = s + \"x\";\nprint(s);"
    ));
    assert!(!grows(
        "string s = \"a\";\nBox b = Box { text: s };\ns = s + \"x\";\nprint(b.text);"
    ));
    // Given a value that already had a name.
    assert!(!grows(
        "string o = \"a\" + \"b\";\nstring s = o;\ns = s + \"x\";\nprint(s);"
    ));
    // Given the answer of a call, which may be anybody's.
    assert!(!grows("string s = keep(\"a\");\ns = s + \"x\";\nprint(s);"));
    // Prepending cannot grow a block where it stands.
    assert!(!grows("string s = \"a\";\ns = \"x\" + s;\nprint(s);"));
    // A piece that reads the variable: appending one at a time would let
    // the second piece see what the first one wrote.
    assert!(!grows(
        "string s = \"a\";\ns = s + string(len(s)) + \"!\";\nprint(s);"
    ));

    // A parameter is the caller's string, whatever the body does with it.
    let ir = lower_src(
        "fn grow(string s) -> string {\n  s = s + \"x\";\n  return s;\n}\n\
         fn main() {\n  print(grow(\"a\"));\n}\n",
    );
    assert!(!routines(&ir).contains(&Runtime::Append), "{}", ir.dump());
}

/// A copy is only followed by a fix-up where the type says one can be
/// needed, so a program whose classes hold nothing but numbers carries
/// none of the machinery.
#[test]
fn ir_only_a_copy_that_can_share_is_followed_by_a_fixup() {
    let fixups = |ir: &Program| {
        ir.functions
            .iter()
            .flat_map(|f| &f.blocks)
            .flat_map(|b| &b.instrs)
            .filter(|i| matches!(i, Instr::Fixup { .. }))
            .count()
    };

    // Nothing in a `Point` is anybody else's, so its bytes are the whole
    // of it.
    let plain = lower_src(
        "class Point { int x; }\n\
         fn main() {\n  Point a = Point { x: 1 };\n  Point b = a;\n  print(b.x);\n}\n",
    );
    assert_eq!(fixups(&plain), 0, "{}", plain.dump());

    // A list field, and the copy has to be told to go and get its own.
    let sharing = lower_src(
        "class Bag { int[] items; }\n\
         fn main() {\n  Bag a = Bag { items: [1] };\n  Bag b = a;\n  \
         print(len(b.items));\n}\n",
    );
    assert_eq!(fixups(&sharing), 1, "{}", sharing.dump());

    // An array of them is one fix-up over the run rather than one each:
    // the copy was one `CopyBytes`, and this is its other half.
    let array = lower_src(
        "class Bag { int[] items; }\n\
         fn main() {\n  Bag[2] a = [Bag { items: [1] }, Bag { items: [2] }];\n  \
         Bag[2] b = a;\n  print(len(b[0].items));\n}\n",
    );
    let run = instrs(&array)
        .into_iter()
        .find_map(|i| match i {
            Instr::Fixup { count, stride, .. } => Some((*count, *stride)),
            _ => None,
        })
        .expect("the array copy has one");
    assert_eq!(run, (Value::Const(2), 16), "two objects, sixteen bytes apart");
}

#[test]
fn ir_assigning_a_list_copies_it_and_passing_one_does_not() {
    // The whole of "assignment copies, never aliases" for the one mutable
    // thing in the language, in two lowerings.
    let ir = lower_main("int[] a = [1];\nint[] b = a;\nprint(len(b));");
    assert!(routines(&ir).contains(&Runtime::ListClone), "{}", ir.dump());

    let ir = lower_src(
        "fn f(int[] xs) -> int {\n  return len(xs);\n}\n\
         fn main() {\n  int[] a = [1];\n  print(f(a));\n}\n",
    );
    let calls: Vec<Runtime> = ir
        .functions
        .iter()
        .flat_map(|f| &f.blocks)
        .flat_map(|b| &b.instrs)
        .filter_map(|i| match i {
            Instr::RtCall { callee, .. } => Some(*callee),
            _ => None,
        })
        .collect();
    assert!(!calls.contains(&Runtime::ListClone), "a parameter borrows: {}", ir.dump());
}

#[test]
fn ir_a_freshly_built_list_moves_in_rather_than_being_copied() {
    // A literal is nobody else's already, so there is nothing to copy.
    let ir = lower_main("int[] a = [1, 2];\nprint(len(a));");
    assert!(!routines(&ir).contains(&Runtime::ListClone), "{}", ir.dump());
    assert!(routines(&ir).contains(&Runtime::ListNew), "{}", ir.dump());
}

#[test]
fn ir_returning_a_borrowed_list_copies_it_at_the_return() {
    // Copied here rather than at the call site, which is what lets every
    // caller treat a returned list as its own.
    let ir = lower_src(
        "fn f(int[] xs) -> int[] {\n  return xs;\n}\nfn main() {\n  print(len(f([1])));\n}\n",
    );
    let returned: Vec<Runtime> = ir.functions[0]
        .blocks
        .iter()
        .flat_map(|b| &b.instrs)
        .filter_map(|i| match i {
            Instr::RtCall { callee, .. } => Some(*callee),
            _ => None,
        })
        .collect();
    assert!(returned.contains(&Runtime::ListClone), "{}", ir.dump());
}

#[test]
fn ir_push_writes_the_new_address_back_where_the_list_is_named() {
    let ir = lower_main("int[] a = [];\npush(a, 1);\nprint(len(a));");
    let pushes: Vec<&Instr> = instrs(&ir)
        .into_iter()
        .filter(|i| matches!(i, Instr::RtCall { callee: Runtime::ListPush, .. }))
        .collect();
    assert_eq!(pushes.len(), 1);
    // The list's own register is both what goes in and what comes back.
    let Instr::RtCall { dst: Some(dst), args, .. } = pushes[0] else { panic!("a push") };
    assert_eq!(args[0], Value::Reg(*dst), "{}", ir.dump());
}

#[test]
fn ir_a_list_of_objects_is_measured_in_whole_objects() {
    // The routines walk the elements rather than reading one, so how wide
    // an element is has to travel with every call — and the addressing has
    // to scale by the same number.
    let ir = lower_src(
        "class Point {\n  int x;\n  int y;\n}\n\
         fn main() {\n  Point[] ps = [Point { x: 1, y: 2 }];\n  print(ps[0].x);\n}\n",
    );
    // A vtable pointer and two fields.
    let width = Value::Const(24);
    let new = instrs(&ir)
        .into_iter()
        .find(|i| matches!(i, Instr::RtCall { callee: Runtime::ListNew, .. }))
        .expect("the literal builds one");
    let Instr::RtCall { args, .. } = new else { panic!("a call") };
    assert_eq!(args[1], width, "{}", ir.dump());
    assert!(
        instrs(&ir).iter().any(|i| matches!(i, Instr::Elem { scale: 24, .. })),
        "{}",
        ir.dump()
    );
}

#[test]
fn ir_pushing_an_object_hands_over_where_it_is() {
    // An element too big for a register cannot travel in one, so the push
    // that takes an address is a different routine — the compiler knows
    // which from the element's type, and the runtime is not left to guess
    // from a width that an object of one word would make ambiguous.
    let ir = lower_src(
        "class Point {\n  int x;\n}\n\
         fn main() {\n  Point[] ps = [];\n  push(ps, Point { x: 1 });\n  \
         print(len(ps));\n}\n",
    );
    assert!(routines(&ir).contains(&Runtime::ListPushBig), "{}", ir.dump());
    assert!(!routines(&ir).contains(&Runtime::ListPush), "{}", ir.dump());

    // A register-sized element still goes through the plain one.
    let ir = lower_main("int[] xs = [];\npush(xs, 1);\nprint(len(xs));");
    assert!(routines(&ir).contains(&Runtime::ListPush), "{}", ir.dump());
    assert!(!routines(&ir).contains(&Runtime::ListPushBig), "{}", ir.dump());
}

#[test]
fn ir_a_builtin_call_becomes_a_routine_and_not_a_function_call() {
    // There is no body to compile and no `FuncId` to name, so the ordinary
    // call instruction could not carry it.
    let ir = lower_main("print(read_line());");
    assert!(routines(&ir).contains(&Runtime::ReadLine), "{}", ir.dump());
    assert!(!instrs(&ir).iter().any(|i| matches!(i, Instr::Call { .. })), "{}", ir.dump());

    // Discarded on its own, which is a line skipped.
    let ir = lower_main("read_line();");
    let calls: Vec<&Instr> = instrs(&ir)
        .into_iter()
        .filter(|i| matches!(i, Instr::RtCall { callee: Runtime::ReadLine, dst: None, .. }))
        .collect();
    assert_eq!(calls.len(), 1, "{}", ir.dump());

    // A built-in that takes something is no different: the argument is
    // lowered where it stands and travels as an operand.
    let ir = lower_main("print(is_int(\"42\"));");
    assert!(routines(&ir).contains(&Runtime::IsInt), "{}", ir.dump());
    assert!(!instrs(&ir).iter().any(|i| matches!(i, Instr::Call { .. })), "{}", ir.dump());
}

#[test]
fn ir_a_list_index_is_checked_against_a_length_it_has_to_load() {
    let ir = lower_main("int[] a = [1, 2];\nprint(a[0]);");
    assert!(instrs(&ir).iter().any(|i| matches!(i, Instr::Count { .. })), "{}", ir.dump());
}

#[test]
fn ir_a_constant_character_needs_no_check_at_run_time() {
    let ir = lower_main("print(char(65));");
    assert!(!instrs(&ir).iter().any(|i| matches!(i, Instr::RtCall { .. })), "{}", ir.dump());
}

#[test]
fn ir_each_function_gets_its_own_graph_and_registers() {
    let ir = lower_src(
        "fn add(int a, int b) -> int {\n  return a + b;\n}\nfn main() {\n  print(add(1, 2));\n}",
    );
    assert_eq!(ir.functions.len(), 2);
    // Both functions number their blocks and registers from zero.
    assert_eq!(ir.functions[0].blocks[0].label(), "entry0");
    assert_eq!(ir.functions[1].blocks[0].label(), "entry0");
    assert_eq!(ir.functions[0].params, vec![VReg(0), VReg(1)]);
}

#[test]
fn ir_parameters_are_defined_at_the_top_of_the_entry_block() {
    let ir = lower_src("fn f(int a, int b) {\n  print(a);\n}\nfn main() {\n  f(1, 2);\n}");
    let f = &ir.functions[0];
    assert!(matches!(f.blocks[0].instrs[0], Instr::Param { index: 0, .. }));
    assert!(matches!(f.blocks[0].instrs[1], Instr::Param { index: 1, .. }));
}

#[test]
fn ir_a_call_lowers_to_an_instruction_naming_its_callee() {
    let ir = lower_src(
        "fn add(int a, int b) -> int {\n  return a + b;\n}\nfn main() {\n  print(add(1, 2));\n}",
    );
    let main = &ir.functions[1];
    match &main.blocks[0].instrs[0] {
        Instr::Call { dst: Some(_), callee, args } => {
            assert_eq!(*callee, FuncId(0));
            assert_eq!(args, &vec![Value::Const(1), Value::Const(2)]);
        }
        other => panic!("expected a call, got {other:?}"),
    }
}

#[test]
fn ir_a_call_statement_discards_its_result() {
    let ir = lower_src("fn f() -> int {\n  return 1;\n}\nfn main() {\n  f();\n}");
    assert!(matches!(ir.functions[1].blocks[0].instrs[0], Instr::Call { dst: None, .. }));
}

#[test]
fn ir_a_return_carries_its_value_in_the_terminator() {
    let ir = lower_src("fn one() -> int {\n  return 1;\n}\nfn main() {\n  print(one());\n}");
    assert!(matches!(
        ir.functions[0].blocks[0].term,
        Terminator::Return(Some(Value::Const(1)))
    ));
}

#[test]
fn ir_a_bare_return_carries_nothing() {
    let ir = lower_src("fn f() {\n  return;\n}\nfn main() {\n  f();\n}");
    assert!(matches!(ir.functions[0].blocks[0].term, Terminator::Return(None)));
}

#[test]
fn ir_code_after_a_return_is_pruned() {
    // The `print` is lowered into a block nothing jumps to, and that block
    // never reaches the backend.
    let ir = lower_src("fn f() {\n  return;\n  print(1);\n}\nfn main() {\n  f();\n}");
    assert_eq!(labels(&ir.functions[0]), vec!["entry0"]);
}

#[test]
fn ir_an_if_where_both_arms_return_keeps_both_returns() {
    // The join block is unreachable and goes away, but the two `return`
    // terminators must survive the pruning intact.
    let ir = lower_src(
        "fn f(int n) -> int {\n  if (n < 2) {\n    return 1;\n  } else {\n    \
         return 2;\n  }\n}\nfn main() {\n  print(f(1));\n}",
    );
    let f = &ir.functions[0];
    assert_eq!(labels(f), vec!["entry0", "then1", "else2"]);
    assert!(matches!(f.blocks[1].term, Terminator::Return(Some(Value::Const(1)))));
    assert!(matches!(f.blocks[2].term, Terminator::Return(Some(Value::Const(2)))));
}

#[test]
fn ir_a_recursive_call_names_its_own_function() {
    let ir = lower_src(
        "fn fib(int n) -> int {\n  if (n < 2) {\n    return n;\n  } else {\n    \
         return fib(n - 1) + fib(n - 2);\n  }\n}\nfn main() {\n  print(fib(10));\n}",
    );
    let fib = &ir.functions[0];
    let calls: Vec<&Instr> = fib
        .blocks
        .iter()
        .flat_map(|b| &b.instrs)
        .filter(|i| matches!(i, Instr::Call { .. }))
        .collect();
    assert_eq!(calls.len(), 2);
    for call in calls {
        assert!(matches!(call, Instr::Call { callee: FuncId(0), .. }), "{call:?}");
    }
}

#[test]
fn ir_strings_are_shared_across_functions() {
    let ir = lower_src(
        "fn a() {\n  string s = \"hi\";\n  print(s);\n}\n\
         fn main() {\n  string s = \"hi\";\n  print(s);\n  a();\n}",
    );
    assert_eq!(ir.strings.len(), 1);
}

/// And so is literal text, which has a table of its own for the same reason.
#[test]
fn ir_text_is_shared_across_functions() {
    let ir = lower_src(
        "fn a() {\n  print(\"hi\");\n}\nfn main() {\n  print(\"hi\");\n  a();\n}",
    );
    assert_eq!(ir.texts.len(), 1);
}

#[test]
fn ir_a_value_used_by_a_call_does_not_cross_it_but_a_nested_one_does() {
    // In `f(g(1), 2)` the result of `g` is live across nothing; in
    // `f(g(1), h(2))` it is live across the call to `h`.
    let ir = lower_src(
        "fn g(int n) -> int {\n  return n;\n}\nfn h(int n) -> int {\n  return n;\n}\n\
         fn f(int a, int b) -> int {\n  return a;\n}\n\
         fn main() {\n  print(f(g(1), h(2)));\n}",
    );
    let main = ir.functions.last().unwrap();
    let calls = main.blocks[0].instrs.iter().filter(|i| i.is_call()).count();
    assert_eq!(calls, 4); // g, h, f, and the print
}

/// A format lowers to one write per piece, in the order they were written.
#[test]
fn ir_a_format_lowers_to_one_write_per_piece() {
    let ir = lower_main("int n = 7;\nprintln(\"a %d b\", n);");
    assert_eq!(
        body_dump(&ir),
        [
            "entry0:\n",
            "  0  %n = const 7\n",
            "  1  print text0 \"a \"\n",
            "  2  print int %n\n",
            "  3  print text1 \" b\\n\"\n",
            "  4  return\n",
        ].concat()
    );
}

/// `println` is `print` with a newline, and this is where the two become
/// one statement. The newline joins the text in front of it rather than
/// costing a write of its own.
#[test]
fn ir_a_trailing_newline_joins_the_text_before_it() {
    assert_eq!(lower_main("println(\"done\");").texts, vec!["done\n".to_string()]);
    assert_eq!(lower_main("print(\"done\");").texts, vec!["done".to_string()]);
}

/// When a format ends in a specifier there is no text to join the newline
/// to — so the *value* ends the line instead, and nothing is written after
/// it. That is what makes `println(n)` one call rather than two.
#[test]
fn ir_a_value_that_ends_a_line_says_so_rather_than_being_followed_by_one() {
    let ir = lower_main("int n = 1;\nprintln(n);\nprintln(n);");
    assert!(ir.texts.is_empty(), "there is nothing left to write: {:?}", ir.texts);
    let printed: Vec<bool> = ir.functions[0].blocks[0]
        .instrs
        .iter()
        .filter_map(|i| match i {
            Instr::Print { newline, .. } => Some(*newline),
            _ => None,
        })
        .collect();
    assert_eq!(printed, vec![true, true]);
}

/// Only the *last* write of a `println` ends the line, and a `print` never
/// does — which is the whole of what the flag means.
#[test]
fn ir_only_the_last_value_of_a_println_ends_the_line() {
    let ends: Vec<bool> = ["println(\"%d %d\", 1, 2);", "print(\"%d %d\", 1, 2);"]
        .iter()
        .flat_map(|body| {
            lower_main(body).functions[0].blocks[0]
                .instrs
                .iter()
                .filter_map(|i| match i {
                    Instr::Print { newline, .. } => Some(*newline),
                    _ => None,
                })
                .collect::<Vec<bool>>()
        })
        .collect();
    assert_eq!(ends, vec![false, true, false, false]);
}

/// A `println()` with nothing to write is a blank line, and must not reach
/// back and attach its line ending to the write *before* it.
#[test]
fn ir_an_empty_println_is_a_blank_line_and_not_a_second_one_on_the_line_above() {
    let ir = lower_main("println(1);\nprintln();\nprintln(2);");
    assert_eq!(ir.texts, vec!["\n".to_string()], "the blank line is its own write");
    let kinds: Vec<&str> = ir.functions[0].blocks[0]
        .instrs
        .iter()
        .filter_map(|i| match i {
            Instr::Print { newline: true, .. } => Some("println"),
            Instr::Print { .. } => Some("print"),
            Instr::PrintText { .. } => Some("text"),
            _ => None,
        })
        .collect();
    assert_eq!(kinds, vec!["println", "text", "println"]);
}

/// A `println` whose last part is text still ends the line with that text,
/// exactly as before: there is a piece to join the newline to.
#[test]
fn ir_a_println_ending_in_text_still_ends_the_line_with_the_text() {
    let ir = lower_main("int n = 1;\nprintln(\"n is %d.\", n);");
    assert_eq!(ir.texts, vec!["n is ".to_string(), ".\n".to_string()]);
    assert!(
        ir.functions[0].blocks[0]
            .instrs
            .iter()
            .all(|i| !matches!(i, Instr::Print { newline: true, .. })),
        "the text ends the line, so no value does"
    );
}

/// Every value is evaluated before anything is written.
///
/// A `print` is written like a call and read like one, so its arguments go
/// first — otherwise a call that writes something itself would land in the
/// middle of this line rather than before it.
#[test]
fn ir_the_values_are_evaluated_before_the_first_write() {
    let ir = lower_src(
        "fn f() -> int {\n  return 1;\n}\n\
         fn main() {\n  println(\"a %d b %d\", f(), f());\n}",
    );
    let main = ir.functions.iter().find(|f| f.name == "main").expect("main");
    let kinds: Vec<&str> = main.blocks[0]
        .instrs
        .iter()
        .filter_map(|i| match i {
            Instr::Call { .. } => Some("call"),
            Instr::Print { .. } => Some("print"),
            Instr::PrintText { .. } => Some("text"),
            _ => None,
        })
        .collect();
    // Six pieces, not seven: the format ends in a specifier, so the last
    // *value* ends the line and there is nothing to write after it.
    assert_eq!(kinds, vec!["call", "call", "text", "print", "text", "print"]);
    assert_eq!(ir.texts, vec!["a ".to_string(), " b ".to_string()]);
}

/// A `print` with nothing to write lowers to nothing at all; a `println`
/// with nothing to write lowers to the line ending alone.
#[test]
fn ir_writing_nothing_costs_nothing() {
    assert!(lower_main("print();").functions[0].blocks[0].instrs.is_empty());
    assert_eq!(lower_main("println();").texts, vec!["\n".to_string()]);
}

/// Text and strings are interned in separate tables because they are laid
/// out differently — and the same words in both roles land in both.
#[test]
fn ir_the_same_words_can_be_text_in_one_place_and_a_string_in_another() {
    let ir = lower_main("string s = \"hi\";\nprint(\"hi\");\nprint(s);");
    assert_eq!(ir.texts, vec!["hi".to_string()]);
    assert_eq!(ir.strings, vec![vec!['h', 'i']]);
}

/// A float literal becomes the bits of its double, and the instructions
/// that read those bits say so. Nothing else in the IR changes shape.
#[test]
fn ir_a_float_travels_as_the_bits_of_its_double() {
    let ir = lower_main("float a = 1.5;\nfloat b = a * 2.0;\nprintln(b < a);");
    assert_eq!(
        body_dump(&ir),
        [
            "entry0:\n",
            "  0  %a = const 4609434218613702656\n",
            "  1  %b = mul.f %a, 2f\n",
            "  2  %t2 = cmp.f < %b, %a\n",
            "  3  println bool %t2\n",
            "  4  return\n",
        ].concat()
    );
    assert_eq!(f64::from_bits(4609434218613702656u64), 1.5);
}

/// Folding a float is done in `f64`, not on the bits, so the compiler and
/// the machine cannot come to different answers.
#[test]
fn ir_float_constants_fold_as_floats() {
    let ir = lower_main("println(1.5 + 2.25);");
    assert_eq!(body_dump(&ir), "entry0:\n  0  println float 3.75f\n  1  return\n");

    // Adding the two bit patterns as integers would answer this instead,
    // which is what makes the `num` on the instruction load-bearing.
    let wrong = f64::to_bits(1.5) + f64::to_bits(2.25);
    assert_ne!(wrong, f64::to_bits(3.75));
}

/// `-x` is a subtraction from **negative** zero. `0.0 - x` would answer
/// `+0.0` where `x` was `+0.0`, and the difference is invisible until
/// something divides by the result.
#[test]
fn ir_negating_a_float_subtracts_from_negative_zero() {
    let ir = lower_main("float a = 0.0;\nfloat b = -a;\nprintln(b);");
    assert!(body_dump(&ir).contains("%b = sub.f -0f, %a"), "{}", body_dump(&ir));
    assert_eq!(negate_const(Num::Float, 0.0f64.to_bits() as i64), (-0.0f64).to_bits() as i64);
}

/// A conversion that can be settled here is, and the one that cannot stays
/// an instruction — the same bargain `char(n)` strikes.
#[test]
fn ir_a_constant_conversion_is_settled_where_it_can_be() {
    // Both fold to a `const`, and neither leaves an instruction that could
    // stop the program.
    let up = body_dump(&lower_main("float f = float(3);\nprintln(f);"));
    assert!(up.contains("%f = const 4613937818241073152"), "{up}");
    let down = body_dump(&lower_main("int n = int(3.75);\nprintln(n);"));
    assert!(down.contains("%n = const 3"), "{down}");

    // What only the running program knows stays an instruction, and only in
    // the direction that can fail.
    let ir = lower_main("int n = 3;\nfloat f = float(n) / 2.0;\nprintln(int(f));");
    let dump = body_dump(&ir);
    assert!(dump.contains(" = int %"), "{dump}");
}

/// Float arithmetic answers whatever it is given — an infinity, a NaN — so
/// there is nothing to guard and nothing keeping a result nobody reads.
#[test]
fn ir_float_arithmetic_cannot_fail() {
    let division = |num| Instr::Bin {
        num,
        op: BinOp::Div,
        dst: VReg(0),
        lhs: Value::Reg(VReg(1)),
        rhs: Value::Reg(VReg(2)),
    };
    assert!(!division(Num::Float).can_fail());
    assert!(
        division(Num::Int).can_fail(),
        "an int division still has a zero divisor to worry about"
    );

    // Only one direction of the conversion can.
    let cast = |to| Instr::Cast { dst: VReg(0), to, src: Value::Reg(VReg(1)) };
    assert!(cast(Num::Int).can_fail());
    assert!(!cast(Num::Float).can_fail());
}

// -- into SSA form and back --------------------------------------------------


fn main_of(src: &str) -> Function {
    let mut ir = lower_src(&format!("fn main() {{\n{src}\n}}\n"));
    construct(&mut ir);
    ir.functions.into_iter().next().expect("a main")
}

/// The dump of `main` in SSA form, without its signature line.
fn ssa(src: &str) -> String {
    let mut ir = lower_src(&format!("fn main() {{\n{src}\n}}\n"));
    construct(&mut ir);
    body_dump(&ir)
}

/// The same, put back into the form the backend reads.
fn back(src: &str) -> String {
    let mut ir = lower_src(&format!("fn main() {{\n{src}\n}}\n"));
    construct(&mut ir);
    destruct(&mut ir);
    body_dump(&ir)
}


/// Every register written once, and every operand naming one that is.
fn is_ssa(function: &Function) -> Result<(), String> {
    let mut written = vec![0usize; function.vreg_count()];
    for block in &function.blocks {
        for &param in &block.params {
            written[param.0 as usize] += 1;
        }
        for instr in &block.instrs {
            if let Some(def) = instr.def() {
                written[def.0 as usize] += 1;
            }
        }
    }
    for (index, count) in written.iter().enumerate() {
        if *count > 1 {
            return Err(format!("%{} is written {count} times", function.name_of(VReg(index as u32))));
        }
    }

    let mut read = Vec::new();
    for block in &function.blocks {
        for instr in &block.instrs {
            read.extend(instr.uses());
        }
        read.extend(block.term.uses());
    }
    match read.iter().find(|reg| written[reg.0 as usize] == 0) {
        Some(reg) => Err(format!("%{} is read but never written", function.name_of(*reg))),
        None => Ok(()),
    }
}

/// Every target hands its block exactly one value per parameter.
fn arities_agree(function: &Function) -> Result<(), String> {
    for block in &function.blocks {
        for target in block.term.targets() {
            let wanted = function.block(target.block).params.len();
            if target.args.len() != wanted {
                return Err(format!(
                    "{} hands {} {} arguments for {wanted} parameters",
                    block.label(),
                    function.block(target.block).label(),
                    target.args.len()
                ));
            }
        }
    }
    Ok(())
}

const PROGRAMS: &[&str] = &[
    "int n = 1;\nif (n < 5) {\n  n = n + 1;\n} else {\n  n = n + 2;\n}\nprintln(n);",
    "int t = 0;\nfor (int i = 0; i < 3; i = i + 1) {\n  t = t + i;\n}\nprintln(t);",
    "int i = 0;\nwhile (i < 10) {\n  i = i + 1;\n  if (i == 5) { continue; }\n  if (i == 8) { break; }\n}\nprintln(i);",
    "bool b = true && false;\nprintln(b);",
    "int n = 3;\nmatch (n) {\n  1 => { println(1); }\n  _ => { println(0); }\n}",
    "string s = \"a\";\nfor (int i = 0; i < 3; i = i + 1) {\n  s = s + \"b\";\n}\nprintln(s);",
    "int[3] xs = [1, 2, 3];\nint sum = 0;\nfor (int i = 0; i < 3; i = i + 1) {\n  sum = sum + xs[i];\n}\nprintln(sum);",
];

#[test]
fn construction_leaves_every_function_in_ssa_form() {
    for source in PROGRAMS {
        let function = main_of(source);
        is_ssa(&function).unwrap_or_else(|why| panic!("{why}\nfor:\n{source}"));
        arities_agree(&function).unwrap_or_else(|why| panic!("{why}\nfor:\n{source}"));
    }
}

#[test]
fn destruction_leaves_no_parameter_and_no_argument_behind() {
    for source in PROGRAMS {
        let mut ir = lower_src(&format!("fn main() {{\n{source}\n}}\n"));
        construct(&mut ir);
        destruct(&mut ir);
        for function in &ir.functions {
            for block in &function.blocks {
                assert!(block.params.is_empty(), "{} kept parameters", block.label());
                for target in block.term.targets() {
                    assert!(target.args.is_empty(), "{} kept arguments", block.label());
                }
            }
        }
    }
}

#[test]
fn two_definitions_meeting_grow_a_parameter_on_the_block_they_meet_in() {
    let printed = ssa("int n = 1;\nif (n < 5) {\n  n = n + 1;\n} else {\n  n = n + 2;\n}\nprintln(n);");
    assert!(printed.contains("join3(%n.1):"), "{printed}");
    assert!(printed.contains("jump join3(%n.3)"), "{printed}");
    assert!(printed.contains("jump join3(%n.2)"), "{printed}");
    assert!(printed.contains("println int %n.1"), "{printed}");
}

#[test]
fn a_loop_variable_becomes_a_parameter_of_its_header() {
    // `%i` at the top of the loop is the entry's value on the first round and
    // the body's on every one after, and with one register for both there would
    // be no way to write that down.
    let printed = ssa("int t = 0;\nfor (int i = 0; i < 3; i = i + 1) {\n  t = t + i;\n}\nprintln(t);");
    assert!(printed.contains("loop1(%t.1, %i.1):"), "{printed}");
    assert!(printed.contains("jump loop1(%t, %i)"), "{printed}");
    assert!(printed.contains("jump loop1(%t.2, %i.2)"), "{printed}");
}

#[test]
fn a_temporary_written_once_keeps_the_name_it_had() {
    // Renaming everything would have turned every `%t3` in every dump into
    // `%t3.1` for no reason a reader could see.
    let printed = ssa("println(1 + 2);");
    assert!(!printed.contains(".1"), "a single definition was versioned:\n{printed}");
}

#[test]
fn arguments_become_copies_in_the_block_the_edge_leaves() {
    let printed = back("int n = 1;\nif (n < 5) {\n  n = n + 1;\n} else {\n  n = n + 2;\n}\nprintln(n);");
    assert!(printed.contains("%n.1 = copy %n.3"), "{printed}");
    assert!(printed.contains("%n.1 = copy %n.2"), "{printed}");
    assert!(!printed.contains('('), "a target kept its arguments:\n{printed}");
}

#[test]
fn a_parameter_handed_its_own_definition_back_costs_nothing() {
    // `while (i < n) { ... }` with a body that does not touch `n` hands the
    // header the same register it already has. A copy of a register to itself
    // is not an instruction worth emitting.
    let printed = back("int n = 10;\nint i = 0;\nwhile (i < n) {\n  i = i + 1;\n}\nprintln(n);");
    assert!(!printed.contains("copy %n\n"), "a self-copy was emitted:\n{printed}");
}

#[test]
fn an_edge_out_of_a_branch_gets_a_block_of_its_own_to_copy_in() {
    // A block ending in a branch cannot hold the copies for one of its edges:
    // they would run on the other one too. It is also where the backend fuses
    // the comparison into the jump, which an instruction in between would stop.
    let mut ir = lower_src(
        "fn main() {\n  int n = 0;\n  while (n < 10) {\n    if (n == 3) { n = n + 2; }\n    n = n + 1;\n  }\n  println(n);\n}\n",
    );
    construct(&mut ir);
    destruct(&mut ir);
    let main = &ir.functions[0];
    for block in &main.blocks {
        if matches!(block.term, Terminator::Branch { .. }) {
            assert!(
                !matches!(block.instrs.last(), Some(Instr::Copy { .. })),
                "{} ends in a copy between its comparison and its branch",
                block.label()
            );
        }
    }
}

#[test]
fn a_swap_between_two_parameters_is_not_lost() {
    // Both copies on one edge happen at once. Writing `%a = %b` before reading
    // `%b` would answer with two copies of the same value.
    let mut function = main_of("int a = 1;
int b = 2;
println(a + b);");
    let mut names = Names::of(&mut function);
    let (a, b) = (VReg(0), VReg(1));
    let copies = sequence(&mut names, vec![(a, Value::Reg(b)), (b, Value::Reg(a))]);

    // Run them, and check the two ended up holding each other's value rather
    // than two copies of one.
    let mut held: Vec<i64> = (0..names.finish().len() as i64).collect();
    for copy in &copies {
        let Instr::Copy { dst, src: Value::Reg(src) } = copy else { panic!("{copies:?}") };
        held[dst.0 as usize] = held[src.0 as usize];
    }
    assert_eq!(held[a.0 as usize], b.0 as i64, "{copies:?}");
    assert_eq!(held[b.0 as usize], a.0 as i64, "{copies:?}");
}

#[test]
fn a_definition_that_reaches_nowhere_else_is_left_alone() {
    // Nothing about a straight run of code needs SSA to say anything, and a
    // pass that rewrote it anyway would make every dump harder to read for
    // nothing.
    let source = "println(1);\nprintln(2);";
    let mut ir = lower_src(&format!("fn main() {{\n{source}\n}}\n"));
    let before = body_dump(&ir);
    construct(&mut ir);
    assert_eq!(before, body_dump(&ir));
}

// -- the optimiser -----------------------------------------------------------

/// A function whose answer the compiler cannot possibly know, in a language
/// that has no such thing built in. Every test about what the pass must
/// *not* do needs one.
const UNKNOWN: &str = "fn unknown() -> int {\n  return int(read_line());\n}\n";

/// The dump of `main`, without its signature line, as the backend gets it.
fn optimised(body: &str) -> String {
    dump_main(body, true)
}

/// The same, straight from lowering — the other half of every `--emit ir`
/// comparison.
fn raw(body: &str) -> String {
    dump_main(body, false)
}

fn dump_main(body: &str, optimise_it: bool) -> String {
    let mut ir = lower_src(&format!("{UNKNOWN}fn main() {{\n{body}\n}}\n"));
    if optimise_it {
        optimise(&mut ir);
    }
    let dump = ir.dump();
    let main = dump.find("fn main(").expect("the entry point");
    let start = main + dump[main..].find(":\n").expect("a signature line") + 2;
    dump[start..].trim_end().to_string() + "\n"
}

#[test]
fn a_value_that_went_through_a_variable_is_still_constant() {
    // What lowering cannot see: it folds syntax, and `a` is not a literal.
    assert_eq!(
        optimised("int a = 6;\nint b = 7;\nint c = 2;\nprint(a + b * c);"),
        ["entry0:\n", "  0  print int 20\n", "  1  return\n"].concat()
    );
}

#[test]
fn the_whole_of_arith_reduces_to_the_numbers_it_prints() {
    // As written, each line is an `imul`, a `jo`, an `add` and another `jo` to
    // work out a number that stands in the source.
    let printed = optimised(
        "int a = 6;\nint b = 7;\nint c = 2;\n\
         print(a + b * c);\nprint((a + b) * c);\nprint(-a + b);\n\
         print(a * b - c * 100);\nprint(a * b / c);\nprint(b % c);",
    );
    for answer in ["20", "26", "1", "-158", "21", "1"] {
        assert!(printed.contains(&format!("print int {answer}\n")), "{printed}");
    }
    // Nothing is left to compute.
    for operation in ["add", "sub", "mul", "div", "rem", "const"] {
        assert!(!printed.contains(operation), "{operation} survived:\n{printed}");
    }
}

#[test]
fn a_condition_settled_here_stops_being_a_branch() {
    let printed = optimised("bool debug = false;\nif (debug) {\n  print(1);\n}\nprint(2);");
    assert!(!printed.contains("branch"), "{printed}");
    assert!(!printed.contains("print int 1"), "the dead arm survived:\n{printed}");
    assert!(printed.contains("print int 2"), "{printed}");
    // And the block it guarded is gone, not merely unreached.
    assert!(!printed.contains("then"), "{printed}");
}

#[test]
fn a_loop_whose_variable_changes_keeps_its_arithmetic() {
    // The back edge disagrees with the entry, so `i` is not constant in the
    // body however constant it starts. Getting this wrong is how an
    // optimiser turns a loop into a wrong answer.
    let printed = optimised("for (int i = 0; i < 3; i = i + 1) {\n  print(i);\n}");
    assert!(printed.contains("add %i, 1"), "{printed}");
    assert!(printed.contains("branch"), "{printed}");
    assert!(!printed.contains("print int 0"), "`i` is not 0 in the body:\n{printed}");
}

#[test]
fn what_nothing_reads_and_cannot_fail_is_removed() {
    let printed = optimised("int a = 6;\nbool unread = a < 7;\nprint(a);");
    assert_eq!(printed, ["entry0:\n", "  0  print int 6\n", "  1  return\n"].concat());
}

#[test]
fn an_operation_that_could_stop_the_program_is_never_removed() {
    // Nothing reads `unread`, and that is not a reason to drop it: whether
    // it overflows is where this program ends.
    let printed = optimised("int n = unknown();\nint unread = n * n;\nprint(n);");
    assert!(printed.contains("mul"), "the multiplication was dropped:\n{printed}");
}

#[test]
fn an_index_this_pass_worked_out_keeps_its_check_when_it_is_out_of_range() {
    // Substituting the 5 would leave an `elem` with two constants, which
    // the backend emits without a bounds check — for an index nobody ever
    // proved was in range.
    let printed = optimised("int i = 5;\nint[3] xs = [1, 2, 3];\nprint(xs[i]);");
    assert!(printed.contains("elem %xs[%i]"), "the check was optimised away:\n{printed}");
    // The one just inside stays a check-free access, as it always was.
    let fine = optimised("int i = 2;\nint[3] xs = [1, 2, 3];\nprint(xs[i]);");
    assert!(fine.contains("elem %xs[2]"), "{fine}");
}

#[test]
fn nothing_a_program_does_is_left_out() {
    // Every instruction with an effect survives, however little the pass
    // can say about it.
    let printed = optimised("string s = \"hi\";\nprint(s);\nprint(len(s));");
    assert!(printed.contains("straddr"), "{printed}");
    assert_eq!(printed.matches("print").count(), 2, "{printed}");
    assert!(printed.contains("count"), "{printed}");
}

#[test]
fn a_program_with_nothing_to_fold_comes_out_as_it_went_in() {
    // The pass must be a no-op where it has nothing to say, or every dump
    // in the test suite would be measuring the optimiser instead.
    let body = "int n = unknown();\nprint(n + 1);";
    assert_eq!(optimised(body), raw(body));
}

#[test]
fn a_call_is_never_dropped_even_when_its_answer_is_unread() {
    // It reads a line, which is not something an unread result undoes.
    let printed = optimised("int n = unknown();\nprint(1);");
    assert!(printed.contains("call unknown"), "{printed}");
}

// -- the whole of the middle ---------------------------------------------------

const FOLDS: &str = "int a = 6;\nint b = 7;\nint c = 2;\nprintln(a + b * c);";

fn main_with(body: &str) -> (tinyc::ast::Program, Types) {
    checked(&format!("fn main() {{\n{body}\n}}\n"))
}

#[test]
fn the_pipeline_folds_what_is_known() {
    let (ast, types) = main_with(FOLDS);
    let compiled = tinyc::compile(&ast, types).expect("the frames fit");
    assert_eq!(body_dump(&compiled.ir), "entry0:\n  0  println int 20\n  1  return\n");
}

#[test]
fn the_pipeline_leaves_a_program_alone_when_told_to() {
    let (ast, types) = main_with(FOLDS);
    let options = tinyc::Options { optimise: false };
    let mut everything = tinyc::Observer::new(|_: tinyc::Stage<'_>| true);
    let compiled = tinyc::compile_with(&ast, types, options, &mut everything);
    let compiled = compiled.expect("the frames fit").expect("nothing stopped it");
    let dump = body_dump(&compiled.ir);
    assert!(dump.contains("mul %b, %c"), "{dump}");
    assert!(tinyc::Options::default().optimise);
}

#[test]
fn an_observer_is_shown_each_stage_and_may_stop_after_any() {
    let source = "int n = 1;\nwhile (n < 5) {\n  n = n + 1;\n}\nprintln(n);";
    for stop in [false, true] {
        let (ast, types) = main_with(source);
        let mut seen = Vec::new();
        let mut observe = tinyc::Observer::new(|stage: tinyc::Stage<'_>| {
            let (name, ir) = match stage {
                tinyc::Stage::Ssa(ir) => ("ssa", ir),
                tinyc::Stage::Ir(ir) => ("ir", ir),
            };
            let handed = ir.functions[0].blocks.iter().any(|b| !b.params.is_empty());
            seen.push((name, handed));
            stop && name == "ssa"
        });
        let stopped =
            tinyc::compile_with(&ast, types, tinyc::Options::default(), &mut observe);
        assert!(stopped.expect("the frames fit").is_none());
        let wanted: Vec<(&str, bool)> =
            if stop { vec![("ssa", true), ("ir", false)] } else { vec![("ssa", true)] };
        assert_eq!(seen, wanted);
    }
}

#[test]
fn an_observer_that_carries_on_is_shown_every_stage_once() {
    let (ast, types) = main_with(FOLDS);
    let mut seen: Vec<(&str, String)> = Vec::new();
    let mut observe = tinyc::Observer::new(|stage: tinyc::Stage<'_>| {
        seen.push(match stage {
            tinyc::Stage::Ssa(ir) => ("ssa", ir.dump()),
            tinyc::Stage::Ir(ir) => ("ir", ir.dump()),
        });
        true
    });
    let compiled = tinyc::compile_with(&ast, types, tinyc::Options::default(), &mut observe);
    let compiled = compiled.expect("the frames fit").expect("nothing stopped it");
    assert_eq!(seen.iter().map(|(name, _)| *name).collect::<Vec<_>>(), vec!["ssa", "ir"]);
    assert_eq!(seen[1].1, compiled.ir.dump(), "what is shown is what is handed on");
}

#[test]
fn an_observer_is_shown_nothing_of_a_program_that_is_refused() {
    let (ast, types) = checked(&arrays_worth(MAX_FRAME_BYTES + 1));
    let mut calls: usize = 0;
    let mut observe = tinyc::Observer::new(|_: tinyc::Stage<'_>| {
        calls += 1;
        true
    });
    let refused = tinyc::compile_with(&ast, types, tinyc::Options::default(), &mut observe);
    assert_eq!(refused.err().expect("past the limit is past the limit").len(), 1);
    assert_eq!(calls, 0);
}

#[test]
fn the_pipeline_refuses_what_lowering_refuses() {
    let (ast, types) = checked(&arrays_worth(MAX_FRAME_BYTES + 1));
    let errors = tinyc::compile(&ast, types).expect_err("past the limit is past the limit");
    assert_eq!(errors.len(), 1);
    assert_eq!(errors[0].span, Span::new(3, 4), "the caret goes on the name");
}

#[test]
fn a_variant_that_carries_something_is_taken_apart_by_its_pattern() {
    let ir = lower_src(
        "enum Shape { Dot, Circle(int), Rect(int, int) }\n\
         fn area(Shape s) -> int {\n  return match (s) {\n    Shape::Dot => 0,\n    \
         Shape::Circle(r) => r * r,\n    Shape::Rect(w, h) => w * h,\n  };\n}\n\
         fn main() {\n  print(area(Shape::Rect(2, 3)) + area(Shape::Dot));\n}",
    );
    let dump = ir.dump();
    assert!(dump.contains("rt.alloc("), "{dump}");
    assert!(dump.contains(" = value Shape::Dot"), "{dump}");
    assert!(dump.contains("load"), "{dump}");
}

#[test]
fn text_that_needs_escaping_is_escaped_in_the_dump() {
    let ir = lower_main("print(\"say \\\"hi\\\"\");");
    let dump = body_dump(&ir);
    assert!(dump.contains("print text0 \"say \\\"hi\\\"\"\n"), "{dump}");
}

#[test]
fn what_a_pass_takes_away_does_not_change_what_is_printed() {
    for source in PROGRAMS {
        let mut ir = lower_src(&format!("fn main() {{\n{source}\n}}\n"));
        let plain = printed(&ir);
        construct(&mut ir);
        assert_eq!(printed(&ir), plain, "in SSA form:\n{source}");
        optimise(&mut ir);
        assert_eq!(printed(&ir), plain, "optimised:\n{source}");
        destruct(&mut ir);
        assert_eq!(printed(&ir), plain, "out of SSA form:\n{source}");
        for function in &mut ir.functions {
            while tinyc::ir::coalesce::copies(function) {}
        }
        assert_eq!(printed(&ir), plain, "joined:\n{source}");
    }
}

/// Programs that stop at an operation without an answer, and what they print
/// until then.
const STOPPING: [(&str, &[i64]); 7] = [
    ("int big = 9223372036854775807;\nprintln(1);\nint n = big + 1;\nprintln(n);", &[1]),
    ("int big = 9223372036854775807;\nprintln(1);\nint unread = big * 2;\nprintln(2);", &[1]),
    ("int none = 0;\nprintln(3);\nint unread = 1 / none;\nprintln(4);", &[3]),
    (
        "int i = 0;\nint x = 1;\nwhile (i < 100) {\n  println(i);\n  x = x * 1000;\n  \
         i = i + 1;\n}\nprintln(x);",
        &[0, 1, 2, 3, 4, 5, 6],
    ),
    (
        "int low = -9223372036854775807 - 1;\nint i = 3;\nwhile (i > -5) {\n  println(i);\n  \
         i = i - 1;\n  if (i < 0) {\n    int unread = low / i;\n  }\n}",
        &[3, 2, 1, 0],
    ),
    (
        "int[3] a = [7, 8, 9];\nint i = 0;\nwhile (i < 5) {\n  println(a[i]);\n  i = i + 1;\n}",
        &[7, 8, 9],
    ),
    ("int[3] a = [7, 8, 9];\nint past = 2 + 1;\nprintln(1);\nint unread = a[past];\nprintln(2);", &[1]),
];

#[test]
fn what_a_pass_takes_away_does_not_change_where_a_program_stops() {
    for (source, until) in STOPPING {
        let mut ir = lower_src(&format!("fn main() {{\n{source}\n}}\n"));
        let stopped = (until.to_vec(), true);
        assert_eq!(ran(&ir), stopped, "as lowered:\n{source}");
        construct(&mut ir);
        assert_eq!(ran(&ir), stopped, "in SSA form:\n{source}");
        optimise(&mut ir);
        assert_eq!(ran(&ir), stopped, "optimised:\n{source}");
        for function in &ir.functions {
            is_ssa(function).expect("the passes keep the form");
            arities_agree(function).expect("the passes keep the form");
        }
        destruct(&mut ir);
        assert_eq!(ran(&ir), stopped, "out of SSA form:\n{source}");
        for function in &mut ir.functions {
            while tinyc::ir::coalesce::copies(function) {}
        }
        assert_eq!(ran(&ir), stopped, "joined:\n{source}");
    }
}

/// Programs that index what has no length of its own until it runs.
const INDEXING: [&str; 3] = [
    "int[] a = [1, 2];\nint n = 3;\nwhile (n > 0) {\n  n = n - 1;\n  println(a[n]);\n  a[0] = n;\n}",
    "int[] a = [];\npush(a, 1);\nint[] b = a;\nprintln(b[0]);\nb = [4, 5];\nprintln(b[1]);",
    "int[3] a = [7, 8, 9];\nint i = 1;\nprintln(a[i]);\nint[] xs = [i];\nprintln(xs[i]);",
];

/// Whether every length an index is looked at against is written down, or is
/// written by nothing that a pass works out.
fn lengths_asked(ir: &Program) -> bool {
    ir.functions.iter().all(|function| {
        let instrs = || function.blocks.iter().flat_map(|block| &block.instrs);
        instrs().all(|instr| match instr {
            Instr::Elem { len: Value::Reg(len), .. } => instrs().all(|writer| {
                writer.def() != Some(*len)
                    || !matches!(
                        writer,
                        Instr::Const { .. }
                            | Instr::Copy { .. }
                            | Instr::Bin { .. }
                            | Instr::Cmp { .. }
                    )
            }),
            _ => true,
        })
    })
}

#[test]
fn a_length_is_asked_for_and_goes_on_being_asked_for() {
    for source in INDEXING {
        let mut ir = lower_src(&format!("fn main() {{\n{source}\n}}\n"));
        assert!(lengths_asked(&ir), "as lowered:\n{source}");
        construct(&mut ir);
        assert!(lengths_asked(&ir), "in SSA form:\n{source}");
        optimise(&mut ir);
        assert!(lengths_asked(&ir), "optimised:\n{source}");
    }
}

/// The instructions of a program's first function, in the order of its blocks.
fn instructions_of(ir: &Program) -> Vec<&Instr> {
    ir.functions[0].blocks.iter().flat_map(|block| &block.instrs).collect()
}

#[test]
fn an_aggregate_answer_thrown_away_still_has_room_to_go_in() {
    let ir = lower_src(
        "fn main() {\n  three(5);\n}\n\
         fn three(int n) -> int[3] {\n  return [n, n, n];\n}\n",
    );
    let instrs = instructions_of(&ir);
    let Some(Instr::Call { dst: None, args, .. }) =
        instrs.iter().find(|instr| matches!(instr, Instr::Call { .. }))
    else {
        panic!("nothing comes back in a register: {}", ir.dump())
    };
    assert_eq!(args.len(), 2, "{}", ir.dump());
    assert_eq!(args[1], Value::Const(5));
    let Value::Reg(out) = args[0] else { panic!("the room's address leads: {}", ir.dump()) };
    assert!(
        instrs.iter().any(|instr| matches!(instr, Instr::Frame { dst, .. } if *dst == out)),
        "{}",
        ir.dump()
    );
    assert!(ir.functions[0].frame_bytes >= 24, "{}", ir.dump());
}

#[test]
fn a_method_whose_aggregate_answer_is_thrown_away_is_handed_room_too() {
    // Sealed, and so called directly; and with something below it, and so not.
    for below in ["", "class C : B { }\n"] {
        let ir = lower_src(&format!(
            "class B {{\n  int x;\n  fn pair(self) -> int[2] {{\n    return [1, 2];\n  }}\n}}\n{below}\
             fn main() {{\n  B b = B {{ x: 1 }};\n  b.pair();\n}}\n"
        ));
        let main = ir.functions.iter().find(|function| function.name == "main").unwrap();
        let handed: Vec<_> = main
            .blocks
            .iter()
            .flat_map(|block| &block.instrs)
            .filter_map(|instr| match instr {
                Instr::Call { dst, args, .. } | Instr::CallVirtual { dst, args, .. } => {
                    Some((dst, args))
                }
                _ => None,
            })
            .collect();
        assert_eq!(handed.len(), 1, "{}", ir.dump());
        assert_eq!(*handed[0].0, None, "{}", ir.dump());
        assert_eq!(handed[0].1.len(), 2, "the room and the receiver: {}", ir.dump());
    }
}

#[test]
fn every_call_hands_its_callee_as_many_arguments_as_it_takes() {
    let mut ir = lower_src(
        "fn three(int n) -> int[3] {\n  return [n, n, n];\n}\n\
         fn add(int a, int b) -> int {\n  return a + b;\n}\n\
         fn quiet() {\n}\n\
         fn main() {\n  three(1);\n  int[3] a = three(add(1, 2));\n  add(3, 4);\n  quiet();\n  \
         print(a[0]);\n}\n",
    );
    for stage in 0..3 {
        for function in &ir.functions {
            for instr in function.blocks.iter().flat_map(|block| &block.instrs) {
                if let Instr::Call { callee, args, .. } = instr {
                    let callee = ir.function(*callee);
                    let leading =
                        callee.ret.is_some_and(|ty| !ty.fits_in_a_register()) as usize;
                    assert_eq!(args.len(), callee.params.len() + leading, "{}", ir.dump());
                }
            }
        }
        match stage {
            0 => construct(&mut ir),
            1 => optimise(&mut ir),
            _ => {}
        }
    }
}

#[test]
fn a_float_order_turned_round_holds_of_a_nan() {
    // `0.0 / 0.0` orders neither way, so both of these are true.
    let ir = lower_main(
        "float nan = 0.0 / 0.0;\nfloat one = 1.0;\nif (!(nan < one)) {\n  println(1);\n}\n\
         bool b = !(nan >= one);\nif (b) {\n  println(2);\n}\n\
         if (!(nan == one)) {\n  println(3);\n}\nif (!(nan != one)) {\n  println(4);\n}",
    );
    assert_eq!(printed(&ir), [1, 2, 3], "{}", ir.dump());
    let orders: Vec<_> = instructions_of(&ir)
        .into_iter()
        .filter_map(|instr| match instr {
            Instr::Cmp { num: Num::Float, op, .. } => Some(*op),
            _ => None,
        })
        .collect();
    assert_eq!(orders, [CmpOp::Lt, CmpOp::Ge, CmpOp::Ne, CmpOp::Eq], "{}", ir.dump());
}

#[test]
fn strings_that_are_not_equal_are_still_compared_by_what_they_hold() {
    let ir = lower_main(
        "string s = read_line();\nstring t = read_line();\nbool b = !(s == t);\n\
         if (!(s != t)) {\n  print(b);\n}",
    );
    assert_eq!(
        routines(&ir).iter().filter(|routine| **routine == Runtime::StrEq).count(),
        2,
        "{}",
        ir.dump()
    );
    for instr in instructions_of(&ir) {
        if let Instr::Cmp { rhs, .. } = instr {
            assert_eq!(*rhs, Value::Const(0), "never two addresses: {}", ir.dump());
        }
    }
}

#[test]
fn a_string_a_variant_carries_is_not_grown_in_place() {
    let grows = |body: &str| {
        routines(&lower_src(&format!(
            "enum E {{ V(string), N }}\nfn main() {{\n{body}\n}}\n"
        )))
        .contains(&Runtime::Append)
    };
    assert!(grows("string s = \"a\";\nE e = E::N;\ns = s + \"x\";\nprint(s);"));
    assert!(!grows("string s = \"a\";\nE e = E::V(s);\ns = s + \"x\";\nprint(s);"));
    assert!(!grows("string s = \"a\";\ns = s + \"x\";\nE e = E::V(s);\nprint(s);"));
    // A name a pattern gives is declared, and what it names the variant holds.
    let bound = "match (e) {\n  E::V(s) => {\n    s = s + \"x\";\n    print(s);\n  },\n  \
                 E::N => {\n    print(1);\n  },\n}";
    assert!(!grows(&format!("E e = E::V(\"a\");\n{bound}")));
    assert!(!grows(&format!(
        "E e = E::V(\"a\");\nif (true) {{\n  string s = \"b\";\n  print(s);\n}}\n{bound}"
    )));
}

#[test]
fn a_variable_read_inside_a_variant_is_mentioned() {
    let (ast, _) = checked(
        "enum E { V(int), N }\nfn main() {\n  int n = 1;\n  E e = E::V(n + 1);\n  E f = E::N;\n}\n",
    );
    let inits: Vec<&Expr> = ast.functions[0]
        .body
        .stmts
        .iter()
        .map(|stmt| match stmt {
            Stmt::Decl { init, .. } => init,
            _ => panic!("only declarations are written"),
        })
        .collect();
    let name = |name: &str| name.to_string();
    assert!(mentions(inits[1], &name("n")));
    assert!(!mentions(inits[1], &name("e")));
    assert!(!mentions(inits[2], &name("n")));
}

#[test]
fn optimising_twice_is_optimising_once() {
    for (source, _) in STOPPING {
        let mut ir = lower_main(source);
        construct(&mut ir);
        optimise(&mut ir);
        let once = ir.dump();
        optimise(&mut ir);
        assert_eq!(ir.dump(), once, "{source}");
    }
}

/// What `main` prints where it ends.
fn printed(ir: &Program) -> Vec<i64> {
    let (out, stopped) = ran(ir);
    assert!(!stopped, "nothing here overflows");
    out
}

/// What `main` prints, as far as it is about whole numbers, and whether it stops
/// rather than return: what a load, an address or a routine answers is a number
/// of its own each time.
fn ran(ir: &Program) -> (Vec<i64>, bool) {
    let main = &ir.functions[0];
    let mut held: HashMap<u32, i64> = HashMap::new();
    let mut room: HashMap<i64, i64> = HashMap::new();
    let mut out = Vec::new();
    let mut at = 0usize;
    let mut routines = 0;
    for _ in 0..1000 {
        let block = &main.blocks[at];
        for instr in &block.instrs {
            let get = |value: &Value| match value {
                Value::Const(c) => *c,
                Value::Reg(reg) => held[&reg.0],
            };
            let answer = match instr {
                Instr::Const { val, .. } => *val,
                Instr::Copy { src, .. } => get(src),
                Instr::Bin { num, op, lhs, rhs, .. } => {
                    let (a, b) = (Value::Const(get(lhs)), Value::Const(get(rhs)));
                    match fold_bin(*num, *op, a, b) {
                        Some(answer) => answer,
                        None => return (out, true),
                    }
                }
                Instr::Cmp { num, op, lhs, rhs, .. } => {
                    let (a, b) = (Value::Const(get(lhs)), Value::Const(get(rhs)));
                    tinyc::ir::fold_cmp(*num, *op, a, b).expect("both are known")
                }
                Instr::Frame { offset, .. } => *offset as i64,
                Instr::Elem { base, index, len, scale, .. } => {
                    let written = matches!((index, len), (Value::Const(_), Value::Const(_)));
                    if !written && !(0 <= get(index) && get(index) < get(len)) {
                        return (out, true);
                    }
                    get(base) + get(index) * *scale as i64
                }
                Instr::Load { addr, .. } => room[&get(addr)],
                Instr::Store { addr, value } => {
                    room.insert(get(addr), get(value));
                    0
                }
                Instr::Print { val, .. } => {
                    out.push(get(val));
                    0
                }
                _ => {
                    routines += 1;
                    1_000_000 + routines
                }
            };
            if let Some(dst) = instr.def() {
                held.insert(dst.0, answer);
            }
        }
        let get = |value: &Value| match value {
            Value::Const(c) => *c,
            Value::Reg(reg) => held[&reg.0],
        };
        let target = match &block.term {
            Terminator::Jump(target) => target,
            Terminator::Branch { cond, then_blk, else_blk } => {
                if get(cond) != 0 { then_blk } else { else_blk }
            }
            Terminator::Return(_) => return (out, false),
        };
        let handed: Vec<i64> = target.args.iter().map(get).collect();
        at = target.block.0 as usize;
        for (param, word) in main.blocks[at].params.iter().zip(handed) {
            held.insert(param.0, word);
        }
    }
    panic!("the program does not end: {}", ir.dump())
}

/// Programs with a way round every kind of write.
const WRITTEN_ON_EVERY_WAY: [&str; 5] = [
    "fn main() {\n  int n = 0;\n  while (n < 9 && n != 5) {\n    int twice = n + n;\n    \
     if (twice == 4) {\n      n = n + 2;\n      continue;\n    }\n    n = n + 1;\n  }\n  print(n);\n}",
    "fn main() {\n  for (int i = 0; i < 4; i = i + 1) {\n    if (i == 1) {\n      continue;\n    }\n    \
     if (i == 3) {\n      break;\n    }\n    print(i);\n  }\n}",
    "enum A { X, Y }\nfn f(A a) -> int {\n  return match (a) {\n    A::X => 1,\n    \
     A::Y => { print(9); return 2; }\n  };\n}\nfn main() {\n  print(f(A::X));\n}",
    "enum A { X, Y, Z }\nfn g(A a) -> string {\n  string s = match (a) {\n    A::X => \"x\",\n    \
     A::Y => \"y\",\n    A::Z => \"z\",\n  };\n  return s;\n}\nfn main() {\n  print(g(A::Z));\n}",
    "fn main() {\n  bool b = true || false && true;\n  int i = 1;\n  if (b) {\n    int i = 2;\n    \
     print(i);\n  } else {\n    i = 3;\n  }\n  print(i);\n}",
];

#[test]
fn a_lowered_program_reads_only_what_was_written() {
    for src in WRITTEN_ON_EVERY_WAY {
        let ir = lower_src(src);
        for function in &ir.functions {
            assert_eq!(liveness(function).live_in[0].iter(), vec![], "{}", ir.dump());
        }
    }
}

#[test]
fn an_arm_that_is_not_left_leaves_a_match_without_an_answer() {
    let ir = lower_src(
        "enum A { X, Y }\nfn main() {\n  A a = A::X;\n  int n = match (a) {\n    A::X => 1,\n    \
         A::Y => { print(2); }\n  };\n  print(n);\n}",
    );
    let main = &ir.functions[0];
    let unset: Vec<&str> =
        liveness(main).live_in[0].iter().into_iter().map(|reg| main.name_of(reg)).collect();
    assert_eq!(unset, vec!["n"], "{}", ir.dump());
}

#[test]
fn a_variable_is_in_scope_while_it_is_being_declared() {
    let ir = lower_main("int i = 1;\nif (true) {\n  int i = i + 1;\n  print(i);\n}");
    let main = &ir.functions[0];
    let unset: Vec<&str> =
        liveness(main).live_in[0].iter().into_iter().map(|reg| main.name_of(reg)).collect();
    assert_eq!(unset, vec!["i.1"], "{}", ir.dump());
}

#[test]
fn every_read_in_ssa_form_is_of_what_was_written_above_it() {
    for src in WRITTEN_ON_EVERY_WAY {
        let mut ir = lower_src(src);
        construct(&mut ir);
        for function in &ir.functions {
            let dominators = Dominators::of(function);
            let mut reads: usize = 0;
            for block in &function.blocks {
                let mut written: Vec<VReg> = Vec::new();
                let mut above = BlockId(block.index);
                while above.0 != 0 {
                    above = dominators.idom(above);
                    let over = function.block(above);
                    written.extend(over.params.iter().copied());
                    written.extend(over.instrs.iter().filter_map(|instr| instr.def()));
                }
                written.extend(block.params.iter().copied());
                for instr in &block.instrs {
                    for reg in instr.uses() {
                        assert!(written.contains(&reg), "{reg:?} in {}", ir.dump());
                        reads += 1;
                    }
                    written.extend(instr.def());
                }
                for reg in block.term.uses() {
                    assert!(written.contains(&reg), "{reg:?} in {}", ir.dump());
                    reads += 1;
                }
            }
            assert!(reads > 0, "{}", ir.dump());
        }
    }
}

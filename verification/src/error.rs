use crate::text::{append_decimal, decimal};
use vstd::prelude::*;
use crate::cst::{NODE_APPLY, NODE_ASSERT, NODE_ERROR, NODE_IF_ELSE, NODE_SELECT, NODE_STRING, NODE_PATH, NODE_LITERAL, NODE_LAMBDA, NODE_LEGACY_LET, NODE_LET_IN, NODE_LIST, NODE_BIN_OP, NODE_PAREN, NODE_ROOT, NODE_ATTR_SET, NODE_UNARY_OP, NODE_IDENT, NODE_WITH, NODE_HAS_ATTR};
use vstd::string::StringExecFns;

verus! {

/// Why the dependency names of a package could not be read from its file.
#[derive(Debug)]
pub enum DepNamesError {
    /// The package's file could not be read.
    Unreadable,
    /// The file does not parse as Nix; holds the parser's first error message.
    Parse(String),
    /// The package's row and column lie beyond the end of the file.
    PositionInvalid,
    /// The file holds no expression.
    FileEmpty,
    /// The package's position does not point at a lambda.
    NotALambda,
}

/// The errors of dependency resolution.
#[derive(Debug)]
pub enum ResolveError {
    /// Reading the dependency names of `package` failed.
    Package { package: String, error: DepNamesError },
    /// `package` depends on `dependency`, which is no known package.
    MissingDependency { package: String, dependency: String },
    /// The evaluated lambda locations are not an attribute set.
    NotAnAttrSet,
    /// An attribute of the lambda locations has a name that is not a plain identifier.
    ComplexIdent,
    /// A lambda location could not be read from its string.
    LambdaPosition,
    /// An attribute of the lambda locations has a value that is neither a string
    /// nor an attribute set; holds the value's syntax kind and text range, if
    /// there is a value.
    UnrecognisedValue(Option<(u16, u32, u32)>),
}

/// A [`DepNamesError`] as plain values.
pub enum DepNamesFailure {
    Unreadable,
    Parse(Seq<char>),
    PositionInvalid,
    FileEmpty,
    NotALambda,
}

impl View for DepNamesError {
    type V = DepNamesFailure;

    open spec fn view(&self) -> DepNamesFailure {
        match self {
            DepNamesError::Unreadable => DepNamesFailure::Unreadable,
            DepNamesError::Parse(m) => DepNamesFailure::Parse(m@),
            DepNamesError::PositionInvalid => DepNamesFailure::PositionInvalid,
            DepNamesError::FileEmpty => DepNamesFailure::FileEmpty,
            DepNamesError::NotALambda => DepNamesFailure::NotALambda,
        }
    }
}


/// The name of the variant of rnix's `ast::Expr` for a node of kind `k`; empty
/// for a kind that is no expression.
pub open spec fn expr_variant(k: u16) -> Seq<char> {
    if k == NODE_APPLY {
        "Apply"@
    } else if k == NODE_ASSERT {
        "Assert"@
    } else if k == NODE_ERROR {
        "Error"@
    } else if k == NODE_IF_ELSE {
        "IfElse"@
    } else if k == NODE_SELECT {
        "Select"@
    } else if k == NODE_STRING {
        "Str"@
    } else if k == NODE_PATH {
        "Path"@
    } else if k == NODE_LITERAL {
        "Literal"@
    } else if k == NODE_LAMBDA {
        "Lambda"@
    } else if k == NODE_LEGACY_LET {
        "LegacyLet"@
    } else if k == NODE_LET_IN {
        "LetIn"@
    } else if k == NODE_LIST {
        "List"@
    } else if k == NODE_BIN_OP {
        "BinOp"@
    } else if k == NODE_PAREN {
        "Paren"@
    } else if k == NODE_ROOT {
        "Root"@
    } else if k == NODE_ATTR_SET {
        "AttrSet"@
    } else if k == NODE_UNARY_OP {
        "UnaryOp"@
    } else if k == NODE_IDENT {
        "Ident"@
    } else if k == NODE_WITH {
        "With"@
    } else if k == NODE_HAS_ATTR {
        "HasAttr"@
    } else {
        ""@
    }
}

/// The name of the syntax kind `k`, for the expression kinds.
pub open spec fn expr_kind_name(k: u16) -> Seq<char> {
    if k == NODE_APPLY {
        "NODE_APPLY"@
    } else if k == NODE_ASSERT {
        "NODE_ASSERT"@
    } else if k == NODE_ERROR {
        "NODE_ERROR"@
    } else if k == NODE_IF_ELSE {
        "NODE_IF_ELSE"@
    } else if k == NODE_SELECT {
        "NODE_SELECT"@
    } else if k == NODE_STRING {
        "NODE_STRING"@
    } else if k == NODE_PATH {
        "NODE_PATH"@
    } else if k == NODE_LITERAL {
        "NODE_LITERAL"@
    } else if k == NODE_LAMBDA {
        "NODE_LAMBDA"@
    } else if k == NODE_LEGACY_LET {
        "NODE_LEGACY_LET"@
    } else if k == NODE_LET_IN {
        "NODE_LET_IN"@
    } else if k == NODE_LIST {
        "NODE_LIST"@
    } else if k == NODE_BIN_OP {
        "NODE_BIN_OP"@
    } else if k == NODE_PAREN {
        "NODE_PAREN"@
    } else if k == NODE_ROOT {
        "NODE_ROOT"@
    } else if k == NODE_ATTR_SET {
        "NODE_ATTR_SET"@
    } else if k == NODE_UNARY_OP {
        "NODE_UNARY_OP"@
    } else if k == NODE_IDENT {
        "NODE_IDENT"@
    } else if k == NODE_WITH {
        "NODE_WITH"@
    } else if k == NODE_HAS_ATTR {
        "NODE_HAS_ATTR"@
    } else {
        ""@
    }
}

fn expr_variant_str(k: u16) -> (r: &'static str)
    ensures
        r@ == expr_variant(k),
{
    if k == NODE_APPLY {
        "Apply"
    } else if k == NODE_ASSERT {
        "Assert"
    } else if k == NODE_ERROR {
        "Error"
    } else if k == NODE_IF_ELSE {
        "IfElse"
    } else if k == NODE_SELECT {
        "Select"
    } else if k == NODE_STRING {
        "Str"
    } else if k == NODE_PATH {
        "Path"
    } else if k == NODE_LITERAL {
        "Literal"
    } else if k == NODE_LAMBDA {
        "Lambda"
    } else if k == NODE_LEGACY_LET {
        "LegacyLet"
    } else if k == NODE_LET_IN {
        "LetIn"
    } else if k == NODE_LIST {
        "List"
    } else if k == NODE_BIN_OP {
        "BinOp"
    } else if k == NODE_PAREN {
        "Paren"
    } else if k == NODE_ROOT {
        "Root"
    } else if k == NODE_ATTR_SET {
        "AttrSet"
    } else if k == NODE_UNARY_OP {
        "UnaryOp"
    } else if k == NODE_IDENT {
        "Ident"
    } else if k == NODE_WITH {
        "With"
    } else if k == NODE_HAS_ATTR {
        "HasAttr"
    } else {
        ""
    }
}

fn expr_kind_name_str(k: u16) -> (r: &'static str)
    ensures
        r@ == expr_kind_name(k),
{
    if k == NODE_APPLY {
        "NODE_APPLY"
    } else if k == NODE_ASSERT {
        "NODE_ASSERT"
    } else if k == NODE_ERROR {
        "NODE_ERROR"
    } else if k == NODE_IF_ELSE {
        "NODE_IF_ELSE"
    } else if k == NODE_SELECT {
        "NODE_SELECT"
    } else if k == NODE_STRING {
        "NODE_STRING"
    } else if k == NODE_PATH {
        "NODE_PATH"
    } else if k == NODE_LITERAL {
        "NODE_LITERAL"
    } else if k == NODE_LAMBDA {
        "NODE_LAMBDA"
    } else if k == NODE_LEGACY_LET {
        "NODE_LEGACY_LET"
    } else if k == NODE_LET_IN {
        "NODE_LET_IN"
    } else if k == NODE_LIST {
        "NODE_LIST"
    } else if k == NODE_BIN_OP {
        "NODE_BIN_OP"
    } else if k == NODE_PAREN {
        "NODE_PAREN"
    } else if k == NODE_ROOT {
        "NODE_ROOT"
    } else if k == NODE_ATTR_SET {
        "NODE_ATTR_SET"
    } else if k == NODE_UNARY_OP {
        "NODE_UNARY_OP"
    } else if k == NODE_IDENT {
        "NODE_IDENT"
    } else if k == NODE_WITH {
        "NODE_WITH"
    } else if k == NODE_HAS_ATTR {
        "NODE_HAS_ATTR"
    } else {
        ""
    }
}

/// How rnix's `Debug` shows the value of an attribute: `None`, or the
/// expression of kind `k` over the text range `start..end`, as
/// `Some(<Variant>(<Variant>(<KIND>@<start>..<end>)))`.
pub open spec fn value_debug_text(v: Option<(u16, u32, u32)>) -> Seq<char> {
    match v {
        None => "None"@,
        Some((k, start, end)) => "Some("@ + expr_variant(k) + "("@ + expr_variant(k) + "("@
            + expr_kind_name(k) + "@"@ + decimal(start as nat) + ".."@ + decimal(end as nat)
            + ")))"@,
    }
}

/// The message of a [`DepNamesFailure`].
pub open spec fn dep_names_message(f: DepNamesFailure) -> Seq<char> {
    match f {
        DepNamesFailure::Unreadable => "file could not be read"@,
        DepNamesFailure::Parse(m) => m,
        DepNamesFailure::PositionInvalid => "source position invalid"@,
        DepNamesFailure::FileEmpty => "file is empty"@,
        DepNamesFailure::NotALambda => "lambda location doesn't point to a lambda"@,
    }
}

/// The message of a [`ResolveError`].
pub open spec fn resolve_message(e: ResolveError) -> Seq<char> {
    match e {
        ResolveError::Package { package, .. } => "error processing package "@ + package@,
        ResolveError::MissingDependency { package, dependency } => package@
            + " has missing dependency "@ + dependency@,
        ResolveError::NotAnAttrSet => "result of evaluating lambdas was not an attribute set"@,
        ResolveError::ComplexIdent => "todo: value with complex ident"@,
        ResolveError::LambdaPosition => "failed to extract lambda position"@,
        ResolveError::UnrecognisedValue(v) => "unrecognised value type for attribute: "@
            + value_debug_text(v),
    }
}

impl DepNamesError {
    /// The message that describes the error.
    pub fn message(&self) -> (r: String)
        ensures
            r@ == dep_names_message(self@),
    {
        let mut r = String::new();
        match self {
            DepNamesError::Unreadable => r.append("file could not be read"),
            DepNamesError::Parse(m) => r.append(m.as_str()),
            DepNamesError::PositionInvalid => r.append("source position invalid"),
            DepNamesError::FileEmpty => r.append("file is empty"),
            DepNamesError::NotALambda => r.append("lambda location doesn't point to a lambda"),
        }
        r
    }
}

impl ResolveError {
    /// The message that describes the error; for [`ResolveError::Package`], the
    /// context, with the cause in [`DepNamesError::message`].
    pub fn message(&self) -> (r: String)
        ensures
            r@ == resolve_message(*self),
    {
        let mut r = String::new();
        match self {
            ResolveError::Package { package, .. } => {
                r.append("error processing package ");
                r.append(package.as_str());
            },
            ResolveError::MissingDependency { package, dependency } => {
                r.append(package.as_str());
                r.append(" has missing dependency ");
                r.append(dependency.as_str());
            },
            ResolveError::NotAnAttrSet => r.append("result of evaluating lambdas was not an attribute set"),
            ResolveError::ComplexIdent => r.append("todo: value with complex ident"),
            ResolveError::LambdaPosition => r.append("failed to extract lambda position"),
            ResolveError::UnrecognisedValue(v) => {
                r.append("unrecognised value type for attribute: ");
                match v {
                    None => r.append("None"),
                    Some((k, start, end)) => {
                        r.append("Some(");
                        r.append(expr_variant_str(*k));
                        r.append("(");
                        r.append(expr_variant_str(*k));
                        r.append("(");
                        r.append(expr_kind_name_str(*k));
                        r.append("@");
                        append_decimal(&mut r, *start as usize);
                        r.append("..");
                        append_decimal(&mut r, *end as usize);
                        r.append(")))");
                    },
                }
            },
        }
        proof {
            assert(r@ =~= resolve_message(*self));
        }
        r
    }
}

} // verus!

//! The typed function definitions that parsing produces.

use vstd::prelude::*;
use crate::statements::{Statement, SpecStatement, view_stmts};

verus! {

/// A function definition: name, ordered typed parameters, optional return
/// type (only integer, float or complex is permitted), and the body.
#[derive(Debug, PartialEq)]
pub struct Function {
    pub name: String,
    pub parameters: Vec<Parameter>,
    pub return_type: Option<Type>,
    pub statements: Vec<Statement>,
}

/// The closed set of scalar and collection type markers. List element types
/// are restricted to integer, float and complex.
#[derive(Debug, PartialEq, Eq, Clone, Copy)]
pub enum Type {
    Int,
    String,
    Float,
    Complex,
    IntList,
    FloatList,
    ComplexList,
    Matrix,
}

/// A named, typed function parameter.
#[derive(Debug, PartialEq)]
pub struct Parameter {
    pub name: String,
    pub typetype: Type,
}

/// A literal value. A float literal carries the source text it was written
/// with; the front end never computes with float values.
#[derive(Debug, PartialEq, Clone)]
pub enum Literal {
    String(String),
    Char(char),
    Bool(bool),
    Int(i64),
    Float(String),
    Null,
}

/// The model of a parameter.
pub ghost struct SpecParameter {
    pub name: Seq<char>,
    pub typetype: Type,
}

/// The model of a function definition.
pub ghost struct SpecFunction {
    pub name: Seq<char>,
    pub parameters: Seq<SpecParameter>,
    pub return_type: Option<Type>,
    pub statements: Seq<SpecStatement>,
}

impl View for Parameter {
    type V = SpecParameter;

    open spec fn view(&self) -> SpecParameter {
        SpecParameter { name: self.name@, typetype: self.typetype }
    }
}

/// The model of a parameter list.
pub open spec fn view_params(ps: Seq<Parameter>) -> Seq<SpecParameter> {
    ps.map_values(|p: Parameter| p@)
}

impl View for Function {
    type V = SpecFunction;

    open spec fn view(&self) -> SpecFunction {
        SpecFunction {
            name: self.name@,
            parameters: view_params(self.parameters@),
            return_type: self.return_type,
            statements: view_stmts(self.statements@),
        }
    }
}

/// The model of a function list.
pub open spec fn view_functions(fs: Seq<Function>) -> Seq<SpecFunction> {
    fs.map_values(|f: Function| f@)
}

} // verus!
